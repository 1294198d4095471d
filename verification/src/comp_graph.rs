use std::collections::{HashMap, HashSet};

use vstd::prelude::*;

use crate::arena::{NodeArena, NodeKey};
use crate::edge::{edge_apply, edge_parents, tview, Edge, TensorView};
use crate::engine::EngineError;
use crate::node::Node;
use crate::tensor::{Array, EngineTensorUnitIterator};

verus! {

broadcast use vstd::std_specs::hash::group_hash_axioms;

/// What graph evaluation can report: a stale or foreign handle, a structural
/// invariant broken, a forbidden invalidation, or a kernel error passed
/// through.
#[derive(Debug)]
pub enum ComputationGraphError {
    NodeDoesNotExist(NodeKey),
    RootNodeNotComputed(),
    NodeNotComputed(NodeKey),
    RootNodeIsChild(NodeKey),
    CannotClearRoot(),
    ComputationError(EngineError),
}

/// A node's tensor is present.
pub open spec fn node_settled(nodes: Seq<Node>, i: int) -> bool {
    nodes[i].spec_tensor() is Some
}

/// What the node at `i` denotes: a root denotes its stored tensor; a derived
/// node denotes its kernel applied to what its parents denote, and nothing
/// where any kernel in the subgraph fails. Cached tensors play no part: the
/// denotation is fixed by the wiring and the roots alone.
pub open spec fn den(nodes: Seq<Node>, i: int) -> Option<TensorView>
    decreases i, 1int, 0int,
{
    if 0 <= i < nodes.len() {
        let e = nodes[i].spec_edge();
        if e is Root {
            match nodes[i].spec_tensor() {
                Some(t) => Some(tview(t)),
                None => None,
            }
        } else {
            match den_list(nodes, edge_parents(e), i) {
                Some(tvs) => edge_apply(e, tvs),
                None => None,
            }
        }
    } else {
        None
    }
}

/// What a list of parent handles denotes, all referring strictly below `i`.
pub open spec fn den_list(nodes: Seq<Node>, ks: Seq<NodeKey>, i: int) -> Option<Seq<TensorView>>
    decreases i, 0int, ks.len(),
{
    if ks.len() == 0 {
        Some(Seq::<TensorView>::empty())
    } else if 0 <= ks.first().slot_view() < i {
        match den(nodes, ks.first().slot_view() as int) {
            Some(tv) => match den_list(nodes, ks.drop_first(), i) {
                Some(rest) => Some(seq![tv] + rest),
                None => None,
            },
            None => None,
        }
    } else {
        None
    }
}

/// The graph invariant: every edge names only strictly earlier nodes, every
/// root holds a tensor, and every cached tensor is well formed and agrees
/// with its node's denotation.
pub open spec fn nodes_wf(nodes: Seq<Node>) -> bool {
    forall|i: int|
        0 <= i < nodes.len() ==> {
            &&& forall|j: int|
                0 <= j < edge_parents(nodes[i].spec_edge()).len() ==> (#[trigger] edge_parents(
                    nodes[i].spec_edge(),
                )[j]).slot_view() < i
            &&& (nodes[i].spec_edge() is Root ==> nodes[i].spec_tensor() is Some)
            &&& (#[trigger] nodes[i].spec_tensor() matches Some(t) ==> t.valid() && den(nodes, i)
                == Some(tview(t)))
        }
}

/// The walk evaluation performs: `to` is found from `from` by following
/// parent edges through nodes whose tensors are absent. A node with a cached
/// tensor is a source for this walk, as every root is.
#[verifier::opaque]
pub open spec fn reaches(nodes: Seq<Node>, from: int, to: int) -> bool
    decreases from,
{
    0 <= from < nodes.len() && (from == to || (nodes[from].spec_tensor() is None && exists|j: int|
        0 <= j < edge_parents(nodes[from].spec_edge()).len() && (#[trigger] edge_parents(
            nodes[from].spec_edge(),
        )[j]).slot_view() < from && reaches(
            nodes,
            edge_parents(nodes[from].spec_edge())[j].slot_view() as int,
            to,
        )))
}

/// Two node lists with the same wiring and the same root tensors.
pub open spec fn same_core(n1: Seq<Node>, n2: Seq<Node>) -> bool {
    &&& n1.len() == n2.len()
    &&& forall|i: int|
        0 <= i < n1.len() ==> (#[trigger] n2[i]).spec_edge() == n1[i].spec_edge() && (n1[
            i
        ].spec_edge() is Root ==> n2[i].spec_tensor() == n1[i].spec_tensor())
}

/// Denotations depend on the wiring and the root tensors alone: caching or
/// clearing derived tensors moves no denotation.
pub proof fn lemma_den_frame(n1: Seq<Node>, n2: Seq<Node>, i: int)
    requires
        same_core(n1, n2),
    ensures
        den(n2, i) == den(n1, i),
    decreases i, 1int, 0int,
{
    if 0 <= i < n1.len() {
        let e = n1[i].spec_edge();
        if e is Root {
        } else {
            lemma_den_list_frame(n1, n2, edge_parents(e), i);
        }
    }
}

pub proof fn lemma_den_list_frame(n1: Seq<Node>, n2: Seq<Node>, ks: Seq<NodeKey>, i: int)
    requires
        same_core(n1, n2),
    ensures
        den_list(n2, ks, i) == den_list(n1, ks, i),
    decreases i, 0int, ks.len(),
{
    if ks.len() == 0 {
    } else if 0 <= ks.first().slot_view() < i {
        lemma_den_frame(n1, n2, ks.first().slot_view() as int);
        lemma_den_list_frame(n1, n2, ks.drop_first(), i);
    }
}

/// A denotation reads nothing past its own node: growing the graph moves no
/// existing denotation.
pub proof fn lemma_den_extend(n1: Seq<Node>, n2: Seq<Node>, i: int)
    requires
        n1.len() <= n2.len(),
        forall|j: int| 0 <= j < n1.len() ==> n2[j] == n1[j],
        i < n1.len(),
    ensures
        den(n2, i) == den(n1, i),
    decreases i, 1int, 0int,
{
    if 0 <= i < n1.len() {
        let e = n1[i].spec_edge();
        if e is Root {
        } else {
            lemma_den_list_extend(n1, n2, edge_parents(e), i);
        }
    }
}

pub proof fn lemma_den_list_extend(n1: Seq<Node>, n2: Seq<Node>, ks: Seq<NodeKey>, i: int)
    requires
        n1.len() <= n2.len(),
        forall|j: int| 0 <= j < n1.len() ==> n2[j] == n1[j],
        i <= n1.len(),
    ensures
        den_list(n2, ks, i) == den_list(n1, ks, i),
    decreases i, 0int, ks.len(),
{
    if ks.len() == 0 {
    } else if 0 <= ks.first().slot_view() < i {
        lemma_den_extend(n1, n2, ks.first().slot_view() as int);
        lemma_den_list_extend(n1, n2, ks.drop_first(), i);
    }
}

/// A defined parent list pins each member's denotation.
pub proof fn lemma_den_list_members(nodes: Seq<Node>, ks: Seq<NodeKey>, i: int)
    requires
        den_list(nodes, ks, i) is Some,
    ensures
        den_list(nodes, ks, i) matches Some(tvs) && tvs.len() == ks.len() && forall|j: int|
            0 <= j < ks.len() ==> 0 <= (#[trigger] ks[j]).slot_view() < i && den(
                nodes,
                ks[j].slot_view() as int,
            ) == Some(tvs[j]),
    decreases ks.len(),
{
    if ks.len() == 0 {
    } else {
        lemma_den_list_members(nodes, ks.drop_first(), i);
        let tvs = den_list(nodes, ks, i)->Some_0;
        let rest = den_list(nodes, ks.drop_first(), i)->Some_0;
        assert forall|j: int| 0 <= j < ks.len() implies 0 <= (#[trigger] ks[j]).slot_view() < i
            && den(nodes, ks[j].slot_view() as int) == Some(tvs[j]) by {
            if j > 0 {
                assert(ks.drop_first()[j - 1] == ks[j]);
                assert(tvs[j] == rest[j - 1]);
            }
        }
    }
}

/// Conversely, defined member denotations assemble into a defined list.
pub proof fn lemma_den_list_build(nodes: Seq<Node>, ks: Seq<NodeKey>, i: int)
    requires
        forall|j: int|
            0 <= j < ks.len() ==> 0 <= (#[trigger] ks[j]).slot_view() < i && den(
                nodes,
                ks[j].slot_view() as int,
            ) is Some,
    ensures
        den_list(nodes, ks, i) matches Some(tvs) && tvs.len() == ks.len() && forall|j: int|
            0 <= j < ks.len() ==> den(nodes, (#[trigger] ks[j]).slot_view() as int) == Some(
                tvs[j],
            ),
    decreases ks.len(),
{
    if ks.len() == 0 {
    } else {
        assert(ks.first() == ks[0]);
        assert forall|j: int| 0 <= j < ks.drop_first().len() implies 0 <= (#[trigger] ks.drop_first()[
            j
        ]).slot_view() < i && den(nodes, ks.drop_first()[j].slot_view() as int) is Some by {
            assert(ks.drop_first()[j] == ks[j + 1]);
        }
        lemma_den_list_build(nodes, ks.drop_first(), i);
        let tvs = den_list(nodes, ks, i)->Some_0;
        let rest = den_list(nodes, ks.drop_first(), i)->Some_0;
        assert forall|j: int| 0 <= j < ks.len() implies den(
            nodes,
            (#[trigger] ks[j]).slot_view() as int,
        ) == Some(tvs[j]) by {
            if j > 0 {
                assert(ks.drop_first()[j - 1] == ks[j]);
                assert(tvs[j] == rest[j - 1]);
            }
        }
    }
}

/// The walk only descends: whatever it finds sits at or below its start.
pub proof fn lemma_reaches_le(nodes: Seq<Node>, from: int, to: int)
    requires
        reaches(nodes, from, to),
    ensures
        0 <= to <= from,
    decreases from,
{
    reveal(reaches);
    if from == to {
    } else {
        let e = nodes[from].spec_edge();
        let j = choose|j: int|
            0 <= j < edge_parents(e).len() && (#[trigger] edge_parents(e)[j]).slot_view() < from
                && reaches(nodes, edge_parents(e)[j].slot_view() as int, to);
        lemma_reaches_le(nodes, edge_parents(e)[j].slot_view() as int, to);
    }
}

/// A failed denotation anywhere the walk goes fells the start's denotation.
pub proof fn lemma_den_none_up(nodes: Seq<Node>, from: int, to: int)
    requires
        nodes_wf(nodes),
        reaches(nodes, from, to),
        den(nodes, to) is None,
    ensures
        den(nodes, from) is None,
    decreases from,
{
    reveal(reaches);
    if from == to {
    } else {
        let e = nodes[from].spec_edge();
        let j = choose|j: int|
            0 <= j < edge_parents(e).len() && (#[trigger] edge_parents(e)[j]).slot_view() < from
                && reaches(nodes, edge_parents(e)[j].slot_view() as int, to);
        let p = edge_parents(e)[j].slot_view() as int;
        lemma_den_none_up(nodes, p, to);
        assert(!(e is Root));
        if den_list(nodes, edge_parents(e), from) is Some {
            lemma_den_list_members(nodes, edge_parents(e), from);
            assert(den(nodes, p) is Some);
            assert(false);
        }
    }
}

/// External handle for a graph node; stable, copyable, meaningful only
/// against the graph that issued it.
#[derive(Clone, Debug)]
pub struct CompGraphTensor {
    node_key: NodeKey,
}

impl CompGraphTensor {
    pub closed spec fn key(self) -> NodeKey {
        self.node_key
    }

    pub open spec fn slot_view(self) -> nat {
        self.key().slot_view()
    }

    pub fn new(node_key: NodeKey) -> (r: CompGraphTensor)
        ensures
            r.key() == node_key,
    {
        CompGraphTensor { node_key }
    }

    pub fn node_key(&self) -> (r: &NodeKey)
        ensures
            *r == self.key(),
    {
        &self.node_key
    }
}

/// The dependency graph: an arena of nodes under stable handles, plus a
/// running count of kernel invocations.
pub struct CompGraph {
    nodes: NodeArena,
    kernel_calls: u64,
}

impl CompGraph {
    pub closed spec fn nodes_seq(self) -> Seq<Node> {
        crate::arena::arena_nodes(&self.nodes)
    }

    /// How many kernel invocations the graph has performed so far.
    pub closed spec fn calls_view(self) -> nat {
        self.kernel_calls as nat
    }

    pub open spec fn wf(self) -> bool {
        nodes_wf(self.nodes_seq())
    }

    pub fn new() -> (r: CompGraph)
        ensures
            r.wf(),
            r.nodes_seq().len() == 0,
            r.calls_view() == 0,
    {
        CompGraph { nodes: NodeArena::new(), kernel_calls: 0 }
    }

    pub fn kernel_invocations(&self) -> (r: u64)
        ensures
            r == self.calls_view(),
    {
        self.kernel_calls
    }

    fn get_node(&self, key: &NodeKey) -> (r: Option<&Node>)
        ensures
            r is Some <==> key.slot_view() < self.nodes_seq().len(),
            r matches Some(n) ==> *n == self.nodes_seq()[key.slot_view() as int],
    {
        self.nodes.get(key.raw())
    }

    /// Inserts a node and hands back its handle.
    fn push_node(&mut self, node: Node) -> (r: CompGraphTensor)
        ensures
            final(self).nodes_seq() == old(self).nodes_seq().push(node),
            r.slot_view() == old(self).nodes_seq().len(),
            final(self).calls_view() == old(self).calls_view(),
    {
        let slot = self.nodes.len();
        let raw = self.nodes.insert(node);
        CompGraphTensor::new(NodeKey::from_parts(raw, slot))
    }

    /// Ingests an externally supplied tensor as a new root.
    pub fn create_root(&mut self, tensor: Array) -> (r: CompGraphTensor)
        requires
            old(self).wf(),
            tensor.valid(),
        ensures
            final(self).wf(),
            final(self).nodes_seq().len() == old(self).nodes_seq().len() + 1,
            forall|i: int|
                0 <= i < old(self).nodes_seq().len() ==> final(self).nodes_seq()[i] == old(
                    self,
                ).nodes_seq()[i],
            final(self).nodes_seq().last().spec_edge() == Edge::Root,
            final(self).nodes_seq().last().spec_tensor() == Some(tensor),
            r.slot_view() == old(self).nodes_seq().len(),
            final(self).calls_view() == old(self).calls_view(),
            den(final(self).nodes_seq(), r.slot_view() as int) == Some(tview(tensor)),
    {
        let ghost n1 = self.nodes_seq();
        let r = self.push_node(Node::create_root(tensor));
        proof {
            let n2 = self.nodes_seq();
            assert forall|i: int|
                0 <= i < n2.len() && (#[trigger] n2[i].spec_tensor()) is Some implies n2[
                i
            ].spec_tensor()->Some_0.valid() && den(n2, i) == Some(
                tview(n2[i].spec_tensor()->Some_0),
            ) by {
                if i < n1.len() {
                    lemma_den_extend(n1, n2, i);
                }
            }
        }
        r
    }

    /// Records a derived node; no computation happens.
    fn create_node(&mut self, edge: Edge) -> (r: CompGraphTensor)
        requires
            old(self).wf(),
            forall|j: int|
                0 <= j < edge_parents(edge).len() ==> (#[trigger] edge_parents(edge)[j]).slot_view()
                    < old(self).nodes_seq().len(),
            !(edge is Root),
        ensures
            final(self).wf(),
            final(self).nodes_seq().len() == old(self).nodes_seq().len() + 1,
            forall|i: int|
                0 <= i < old(self).nodes_seq().len() ==> final(self).nodes_seq()[i] == old(
                    self,
                ).nodes_seq()[i],
            final(self).nodes_seq().last().spec_edge() == edge,
            final(self).nodes_seq().last().spec_tensor() is None,
            r.slot_view() == old(self).nodes_seq().len(),
            final(self).calls_view() == old(self).calls_view(),
    {
        let ghost n1 = self.nodes_seq();
        let r = self.push_node(Node::create_node(edge));
        proof {
            let n2 = self.nodes_seq();
            assert forall|i: int|
                0 <= i < n2.len() && (#[trigger] n2[i].spec_tensor()) is Some implies n2[
                i
            ].spec_tensor()->Some_0.valid() && den(n2, i) == Some(
                tview(n2[i].spec_tensor()->Some_0),
            ) by {
                if i < n1.len() {
                    lemma_den_extend(n1, n2, i);
                }
            }
        }
        r
    }

    /// The cached tensor of the handle's node, if the handle is live and the
    /// node computed.
    pub fn get_tensor(&self, tensor: &CompGraphTensor) -> (r: Option<&Array>)
        ensures
            r is Some <==> tensor.slot_view() < self.nodes_seq().len() && self.nodes_seq()[
                tensor.slot_view() as int
            ].spec_tensor() is Some,
            r matches Some(a) ==> Some(*a) == self.nodes_seq()[
                tensor.slot_view() as int
            ].spec_tensor(),
    {
        match self.get_node(tensor.node_key()) {
            Some(node) => node.tensor(),
            None => None,
        }
    }

    /// Drops a computed tensor so a later evaluation recomputes it. Roots
    /// may never be cleared; a stale or foreign handle is reported.
    pub fn clear_tensor(&mut self, tensor: &CompGraphTensor) -> (r: Result<
        (),
        ComputationGraphError,
    >)
        requires
            old(self).wf(),
        ensures
            final(self).wf(),
            final(self).calls_view() == old(self).calls_view(),
            r is Ok <==> (tensor.slot_view() < old(self).nodes_seq().len() && !(old(
                self,
            ).nodes_seq()[tensor.slot_view() as int].spec_edge() is Root)),
            r is Ok ==> {
                &&& final(self).nodes_seq().len() == old(self).nodes_seq().len()
                &&& forall|i: int|
                    0 <= i < old(self).nodes_seq().len() && i != tensor.slot_view()
                        ==> final(self).nodes_seq()[i] == old(self).nodes_seq()[i]
                &&& final(self).nodes_seq()[tensor.slot_view() as int].spec_tensor() is None
                &&& final(self).nodes_seq()[tensor.slot_view() as int].spec_edge() == old(
                    self,
                ).nodes_seq()[tensor.slot_view() as int].spec_edge()
            },
            r is Err ==> final(self).nodes_seq() == old(self).nodes_seq(),
            r matches Err(e) ==> (e matches ComputationGraphError::NodeDoesNotExist(k) && k
                == tensor.key() && tensor.slot_view() >= old(self).nodes_seq().len()) || (e
                == ComputationGraphError::CannotClearRoot() && tensor.slot_view() < old(
                self,
            ).nodes_seq().len()),
    {
        let ghost n1 = self.nodes_seq();
        let key = tensor.node_key();
        let edge_copy: Edge = match self.get_node(key) {
            Some(node) => {
                if node.is_root() {
                    return Err(ComputationGraphError::CannotClearRoot());
                }
                *node.edge()
            },
            None => {
                return Err(ComputationGraphError::NodeDoesNotExist(*key));
            },
        };
        let ok = self.nodes.set(key.raw(), Node::create_node(edge_copy));
        proof {
            assert(ok);
            let n2 = self.nodes_seq();
            assert(same_core(n1, n2));
            assert forall|i: int|
                0 <= i < n2.len() && (#[trigger] n2[i].spec_tensor()) is Some implies n2[
                i
            ].spec_tensor()->Some_0.valid() && den(n2, i) == Some(
                tview(n2[i].spec_tensor()->Some_0),
            ) by {
                assert(n1[i].spec_tensor() == n2[i].spec_tensor());
                lemma_den_frame(n1, n2, i);
            }
        }
        Ok(())
    }

    pub fn abs(&mut self, a: &CompGraphTensor) -> (r: CompGraphTensor)
        requires
            old(self).wf(),
            a.slot_view() < old(self).nodes_seq().len(),
        ensures
            graph_extended(*old(self), *final(self), r, Edge::Abs(a.key())),
    {
        self.create_node(Edge::Abs(*a.node_key()))
    }

    pub fn neg(&mut self, a: &CompGraphTensor) -> (r: CompGraphTensor)
        requires
            old(self).wf(),
            a.slot_view() < old(self).nodes_seq().len(),
        ensures
            graph_extended(*old(self), *final(self), r, Edge::Neg(a.key())),
    {
        self.create_node(Edge::Neg(*a.node_key()))
    }

    pub fn add_scalar(&mut self, s: i64, a: &CompGraphTensor) -> (r: CompGraphTensor)
        requires
            old(self).wf(),
            a.slot_view() < old(self).nodes_seq().len(),
        ensures
            graph_extended(*old(self), *final(self), r, Edge::AddScalar(s, a.key())),
    {
        self.create_node(Edge::AddScalar(s, *a.node_key()))
    }

    pub fn sub_scalar_lh(&mut self, s: i64, a: &CompGraphTensor) -> (r: CompGraphTensor)
        requires
            old(self).wf(),
            a.slot_view() < old(self).nodes_seq().len(),
        ensures
            graph_extended(*old(self), *final(self), r, Edge::SubScalarLH(s, a.key())),
    {
        self.create_node(Edge::SubScalarLH(s, *a.node_key()))
    }

    pub fn sub_scalar_rh(&mut self, a: &CompGraphTensor, s: i64) -> (r: CompGraphTensor)
        requires
            old(self).wf(),
            a.slot_view() < old(self).nodes_seq().len(),
        ensures
            graph_extended(*old(self), *final(self), r, Edge::SubScalarRH(a.key(), s)),
    {
        self.create_node(Edge::SubScalarRH(*a.node_key(), s))
    }

    pub fn mul_scalar(&mut self, s: i64, a: &CompGraphTensor) -> (r: CompGraphTensor)
        requires
            old(self).wf(),
            a.slot_view() < old(self).nodes_seq().len(),
        ensures
            graph_extended(*old(self), *final(self), r, Edge::MulScalar(s, a.key())),
    {
        self.create_node(Edge::MulScalar(s, *a.node_key()))
    }

    pub fn div_scalar_lh(&mut self, s: i64, a: &CompGraphTensor) -> (r: CompGraphTensor)
        requires
            old(self).wf(),
            a.slot_view() < old(self).nodes_seq().len(),
        ensures
            graph_extended(*old(self), *final(self), r, Edge::DivScalarLH(s, a.key())),
    {
        self.create_node(Edge::DivScalarLH(s, *a.node_key()))
    }

    pub fn div_scalar_rh(&mut self, a: &CompGraphTensor, s: i64) -> (r: CompGraphTensor)
        requires
            old(self).wf(),
            a.slot_view() < old(self).nodes_seq().len(),
        ensures
            graph_extended(*old(self), *final(self), r, Edge::DivScalarRH(a.key(), s)),
    {
        self.create_node(Edge::DivScalarRH(*a.node_key(), s))
    }

    pub fn add(&mut self, a: &CompGraphTensor, b: &CompGraphTensor) -> (r: CompGraphTensor)
        requires
            old(self).wf(),
            a.slot_view() < old(self).nodes_seq().len(),
            b.slot_view() < old(self).nodes_seq().len(),
        ensures
            graph_extended(*old(self), *final(self), r, Edge::Add(a.key(), b.key())),
    {
        self.create_node(Edge::Add(*a.node_key(), *b.node_key()))
    }

    pub fn sub(&mut self, a: &CompGraphTensor, b: &CompGraphTensor) -> (r: CompGraphTensor)
        requires
            old(self).wf(),
            a.slot_view() < old(self).nodes_seq().len(),
            b.slot_view() < old(self).nodes_seq().len(),
        ensures
            graph_extended(*old(self), *final(self), r, Edge::Sub(a.key(), b.key())),
    {
        self.create_node(Edge::Sub(*a.node_key(), *b.node_key()))
    }

    pub fn mul(&mut self, a: &CompGraphTensor, b: &CompGraphTensor) -> (r: CompGraphTensor)
        requires
            old(self).wf(),
            a.slot_view() < old(self).nodes_seq().len(),
            b.slot_view() < old(self).nodes_seq().len(),
        ensures
            graph_extended(*old(self), *final(self), r, Edge::Mul(a.key(), b.key())),
    {
        self.create_node(Edge::Mul(*a.node_key(), *b.node_key()))
    }

    pub fn div(&mut self, a: &CompGraphTensor, b: &CompGraphTensor) -> (r: CompGraphTensor)
        requires
            old(self).wf(),
            a.slot_view() < old(self).nodes_seq().len(),
            b.slot_view() < old(self).nodes_seq().len(),
        ensures
            graph_extended(*old(self), *final(self), r, Edge::Div(a.key(), b.key())),
    {
        self.create_node(Edge::Div(*a.node_key(), *b.node_key()))
    }

    /// One reverse pass from the target: finds the computed sources the
    /// evaluation starts from and files every uncomputed dependency under
    /// each of its parents.
    #[verifier::rlimit(40)]
    fn generate_node_to_children(&self, target: &NodeKey) -> (r: Result<
        (Vec<NodeKey>, HashMap<u64, Vec<NodeKey>>),
        ComputationGraphError,
    >)
        requires
            self.wf(),
        ensures
            r is Ok <==> target.slot_view() < self.nodes_seq().len(),
            r matches Err(e) ==> (e matches ComputationGraphError::NodeDoesNotExist(k) && k
                == *target),
            r matches Ok(pair) ==> open_list_ok(
                self.nodes_seq(),
                target.slot_view() as int,
                pair.0@,
            ) && children_map_ok(self.nodes_seq(), target.slot_view() as int, pair.1@),
    {
        let ghost nodes = self.nodes_seq();
        let ghost n = nodes.len() as int;
        let ghost tslot = target.slot_view() as int;
        let arena_len = self.nodes.len();
        proof {
            assert(n == arena_len as int);
        }
        if self.get_node(target).is_none() {
            return Err(ComputationGraphError::NodeDoesNotExist(*target));
        }
        let mut to_eval: Vec<NodeKey> = Vec::new();
        to_eval.push(*target);
        let mut visited: HashSet<u64> = HashSet::new();
        let mut open: Vec<NodeKey> = Vec::new();
        let mut node_to_children: HashMap<u64, Vec<NodeKey>> = HashMap::new();
        let ghost mut popped: Set<int> = Set::empty();
        let ghost mut visited_g: Set<int> = Set::empty();
        proof {
            assert(reaches(nodes, tslot, tslot)) by {
                reveal(reaches);
            }
            assert(to_eval@[0].slot_view() as int == tslot);
            assert(list_has_slot(to_eval@, tslot));
        }
        while to_eval.len() > 0
            invariant
                self.wf(),
                nodes == self.nodes_seq(),
                n == nodes.len() as int,
                n <= usize::MAX,
                0 <= tslot < n,
                // searched nodes are walk finds
                forall|j: int|
                    0 <= j < to_eval@.len() ==> reaches(
                        nodes,
                        tslot,
                        (#[trigger] to_eval@[j]).slot_view() as int,
                    ),
                forall|s: int| #[trigger] popped.contains(s) ==> 0 <= s < n && reaches(nodes, tslot, s),
                forall|s: int| #[trigger] visited_g.contains(s) ==> 0 <= s < n,
                visited_g.finite(),
                visited_g.len() <= n,
                // the ghost mirror of the visited set
                forall|s: int|
                    0 <= s < n ==> (#[trigger] visited_g.contains(s) <==> visited@.contains(
                        s as u64,
                    )),
                // the target starts the walk; every other searched node was marked
                popped.contains(tslot) || list_has_slot(to_eval@, tslot),
                forall|j: int|
                    0 <= j < to_eval@.len() ==> visited_g.contains(
                        (#[trigger] to_eval@[j]).slot_view() as int,
                    ) || to_eval@[j].slot_view() as int == tslot,
                forall|s: int|
                    #[trigger] visited_g.contains(s) ==> popped.contains(s) || list_has_slot(
                        to_eval@,
                        s,
                    ),
                // finished nodes have been fully recorded
                forall|j: int|
                    0 <= j < open@.len() ==> reaches(
                        nodes,
                        tslot,
                        (#[trigger] open@[j]).slot_view() as int,
                    ) && node_settled(nodes, open@[j].slot_view() as int) && popped.contains(
                        open@[j].slot_view() as int,
                    ),
                forall|s: int|
                    #[trigger] popped.contains(s) && node_settled(nodes, s) ==> list_has_slot(
                        open@,
                        s,
                    ),
                forall|p: u64| #[trigger] node_to_children@.contains_key(p) ==> child_list_ok(
                    nodes,
                    tslot,
                    p,
                    node_to_children@[p]@,
                ),
                forall|s: int|
                    #[trigger] popped.contains(s) && !node_settled(nodes, s) ==> forall|j: int|
                        0 <= j < edge_parents(nodes[s].spec_edge()).len() ==> {
                            let pk = #[trigger] edge_parents(nodes[s].spec_edge())[j];
                            &&& node_to_children@.contains_key(pk.slot_view() as u64)
                            &&& list_has_slot(
                                node_to_children@[pk.slot_view() as u64]@,
                                s,
                            )
                            &&& visited_g.contains(pk.slot_view() as int)
                        },
            decreases n - visited_g.len(), to_eval@.len(),
        {
            let ghost prev_stack = to_eval@;
            let ghost prev_popped = popped;
            let node_key = match to_eval.pop() {
                Some(k) => k,
                None => {
                    proof {
                        assert(false);
                    }
                    *target
                },
            };
            let ghost cur = node_key.slot_view() as int;
            let node = match self.get_node(&node_key) {
                Some(nd) => nd,
                None => {
                    proof {
                        assert(false);
                    }
                    return Err(ComputationGraphError::NodeDoesNotExist(*target));
                },
            };
            proof {
                popped = popped.insert(cur);
                assert(prev_stack[prev_stack.len() - 1].slot_view() as int == cur);
                assert forall|s: int|
                    #[trigger] visited_g.contains(s) implies popped.contains(s) || list_has_slot(
                    to_eval@,
                    s,
                ) by {
                    if !prev_popped.contains(s) {
                        let j = choose|j: int|
                            0 <= j < prev_stack.len() && (#[trigger] prev_stack[j]).slot_view()
                                == s;
                        if j < prev_stack.len() - 1 {
                            assert(to_eval@[j].slot_view() == s);
                        }
                    }
                }
                if !popped.contains(tslot) {
                    let j = choose|j: int|
                        0 <= j < prev_stack.len() && (#[trigger] prev_stack[j]).slot_view()
                            == tslot;
                    assert(j < prev_stack.len() - 1);
                    assert(to_eval@[j].slot_view() == tslot);
                }
            }
            if node.tensor().is_some() {
                let ghost prev_open = open@;
                open.push(node_key);
                proof {
                    assert forall|s: int|
                        #[trigger] popped.contains(s) && node_settled(nodes, s) implies
                        list_has_slot(open@, s) by {
                        if s == cur {
                            assert(open@[open@.len() - 1].slot_view() == s);
                        } else {
                            let j = choose|j: int|
                                0 <= j < prev_open.len() && (#[trigger] prev_open[j]).slot_view()
                                    == s;
                            assert(open@[j].slot_view() == s);
                        }
                    }
                }
            } else {
                let parents = node.edge().parent_keys();
                let ghost pseq = edge_parents(nodes[cur].spec_edge());
                let ghost entry_vg = visited_g;
                let ghost entry_te = to_eval@.len() as int;
                let num = parents.len();
                for i in 0..num
                    invariant
                        entry_vg.finite(),
                        entry_vg.subset_of(visited_g),
                        visited_g.len() > entry_vg.len() || (visited_g == entry_vg && to_eval@.len()
                            == entry_te),
                        self.wf(),
                        nodes == self.nodes_seq(),
                        n == nodes.len() as int,
                        n <= usize::MAX,
                        0 <= tslot < n,
                        0 <= cur < n,
                        num == pseq.len(),
                        parents@ == pseq,
                        node_key.slot_view() as int == cur,
                        pseq == edge_parents(nodes[cur].spec_edge()),
                        reaches(nodes, tslot, cur),
                        !node_settled(nodes, cur),
                        popped.contains(cur),
                        forall|j: int|
                            0 <= j < to_eval@.len() ==> reaches(
                                nodes,
                                tslot,
                                (#[trigger] to_eval@[j]).slot_view() as int,
                            ),
                        forall|s: int|
                            #[trigger] popped.contains(s) ==> 0 <= s < n && reaches(
                                nodes,
                                tslot,
                                s,
                            ),
                        forall|s: int| #[trigger] visited_g.contains(s) ==> 0 <= s < n,
                        visited_g.finite(),
                        visited_g.len() <= n,
                        forall|s: int|
                            0 <= s < n ==> (#[trigger] visited_g.contains(s)
                                <==> visited@.contains(s as u64)),
                        popped.contains(tslot) || list_has_slot(to_eval@, tslot),
                        forall|j: int|
                            0 <= j < to_eval@.len() ==> visited_g.contains(
                                (#[trigger] to_eval@[j]).slot_view() as int,
                            ) || to_eval@[j].slot_view() as int == tslot,
                        forall|s: int|
                            #[trigger] visited_g.contains(s) ==> popped.contains(s)
                                || list_has_slot(to_eval@, s),
                        forall|j: int|
                            0 <= j < open@.len() ==> reaches(
                                nodes,
                                tslot,
                                (#[trigger] open@[j]).slot_view() as int,
                            ) && node_settled(nodes, open@[j].slot_view() as int)
                                && popped.contains(open@[j].slot_view() as int),
                        forall|s: int|
                            #[trigger] popped.contains(s) && node_settled(nodes, s)
                                ==> list_has_slot(open@, s),
                        forall|p: u64|
                            #[trigger] node_to_children@.contains_key(p) ==> child_list_ok(
                                nodes,
                                tslot,
                                p,
                                node_to_children@[p]@,
                            ),
                        forall|s: int|
                            #[trigger] popped.contains(s) && !node_settled(nodes, s) && s != cur
                                ==> forall|j: int|
                                0 <= j < edge_parents(nodes[s].spec_edge()).len() ==> {
                                    let pk = #[trigger] edge_parents(nodes[s].spec_edge())[j];
                                    &&& node_to_children@.contains_key(pk.slot_view() as u64)
                                    &&& list_has_slot(
                                        node_to_children@[pk.slot_view() as u64]@,
                                        s,
                                    )
                                    &&& visited_g.contains(pk.slot_view() as int)
                                },
                        forall|j: int|
                            0 <= j < i ==> {
                                let pk = #[trigger] pseq[j];
                                &&& node_to_children@.contains_key(pk.slot_view() as u64)
                                &&& list_has_slot(
                                    node_to_children@[pk.slot_view() as u64]@,
                                    cur,
                                )
                                &&& visited_g.contains(pk.slot_view() as int)
                            },
                {
                    let parent_key = parents[i];
                    let pslot64: u64 = parent_key.slot() as u64;
                    let ghost ps = pseq[i as int].slot_view() as int;
                    proof {
                        assert(pseq[i as int].slot_view() < cur);
                        assert(reaches(nodes, tslot, ps)) by {
                            assert(reaches(nodes, cur, ps)) by {
                                reveal(reaches);
                                assert(reaches(nodes, ps, ps));
                                assert(0 <= i < pseq.len() && pseq[i as int].slot_view() < cur
                                    && reaches(nodes, pseq[i as int].slot_view() as int, ps));
                            }
                            lemma_reaches_trans(nodes, tslot, cur, ps);
                        }
                        assert(ps == pslot64 as int);
                    }
                    let ghost prev_map = node_to_children@;
                    let mut lst: Vec<NodeKey> = match node_to_children.remove(&pslot64) {
                        Some(v) => v,
                        None => Vec::new(),
                    };
                    let ghost prev_list = lst@;
                    lst.push(node_key);
                    let ghost pushed_list = lst@;
                    node_to_children.insert(pslot64, lst);
                    proof {
                        assert(pushed_list == prev_list.push(node_key));
                        assert(pushed_list[pushed_list.len() - 1] == node_key);
                        assert(node_to_children@.contains_key(pslot64));
                        assert(node_to_children@[pslot64]@ == pushed_list);
                        assert(forall|p: u64|
                            p != pslot64 && #[trigger] prev_map.contains_key(p)
                                ==> node_to_children@.contains_key(p) && node_to_children@[p]
                                == prev_map[p]);
                        assert(forall|p: u64|
                            p != pslot64 && #[trigger] node_to_children@.contains_key(p)
                                ==> prev_map.contains_key(p));
                        assert(prev_map.contains_key(pslot64) ==> prev_list == prev_map[
                            pslot64
                        ]@);
                        assert forall|p: u64|
                            #[trigger] node_to_children@.contains_key(p) implies child_list_ok(
                            nodes,
                            tslot,
                            p,
                            node_to_children@[p]@,
                        ) by {
                            if p == pslot64 {
                                let cs = node_to_children@[p]@;
                                assert forall|j: int| 0 <= j < cs.len() implies {
                                    let c = (#[trigger] cs[j]).slot_view() as int;
                                    &&& reaches(nodes, tslot, c)
                                    &&& !node_settled(nodes, c)
                                    &&& exists|jj: int|
                                        0 <= jj < edge_parents(nodes[c].spec_edge()).len() && (
                                        #[trigger] edge_parents(
                                            nodes[c].spec_edge(),
                                        )[jj]).slot_view() == p
                                } by {
                                    assert(cs == pushed_list);
                                    if j == cs.len() - 1 {
                                        assert(cs[j] == node_key);
                                        assert(cs[j].slot_view() as int == cur);
                                        assert(edge_parents(
                                            nodes[cur].spec_edge(),
                                        )[i as int].slot_view() == p);
                                    } else {
                                        assert(prev_map.contains_key(p));
                                        assert(cs[j] == prev_list[j]);
                                        assert(cs[j] == prev_map[p]@[j]);
                                        assert(child_list_ok(nodes, tslot, p, prev_map[p]@));
                                    }
                                }
                            } else {
                                assert(prev_map.contains_key(p));
                                assert(node_to_children@[p] == prev_map[p]);
                                assert(child_list_ok(nodes, tslot, p, prev_map[p]@));
                            }
                        }
                        // appended lists keep every filing they had
                        assert forall|s: int, p: u64|
                            prev_map.contains_key(p) && #[trigger] list_has_slot(
                                prev_map[p]@,
                                s,
                            ) implies node_to_children@.contains_key(p) && list_has_slot(
                            node_to_children@[p]@,
                            s,
                        ) by {
                            if p == pslot64 {
                                let j = choose|j: int|
                                    0 <= j < prev_map[p]@.len() && (#[trigger] prev_map[
                                        p
                                    ]@[j]).slot_view() == s;
                                assert(node_to_children@[p]@[j].slot_view() == s);
                            }
                        }
                        assert(list_has_slot(node_to_children@[pslot64]@, cur)) by {
                            let cs = node_to_children@[pslot64]@;
                            assert(cs[cs.len() - 1].slot_view() == cur);
                        }
                    }
                    let already = visited.contains(&pslot64);
                    if !already {
                        let ghost prev_te = to_eval@;
                        let ghost prev_vg = visited_g;
                        to_eval.push(parent_key);
                        visited.insert(pslot64);
                        proof {
                            visited_g = visited_g.insert(ps);
                            assert(!prev_vg.contains(ps));
                            assert(visited_g.len() == prev_vg.len() + 1);
                            vstd::set_lib::lemma_int_range(0, n);
                            assert(visited_g.subset_of(vstd::set_lib::set_int_range(0, n)));
                            vstd::set_lib::lemma_len_subset(
                                visited_g,
                                vstd::set_lib::set_int_range(0, n),
                            );
                            assert forall|s: int|
                                0 <= s < n implies (#[trigger] visited_g.contains(s)
                                <==> visited@.contains(s as u64)) by {
                                assert(0 <= s <= u64::MAX);
                                assert(0 <= ps <= u64::MAX);
                                if s as u64 == pslot64 {
                                    assert(s == ps);
                                }
                            }
                            assert forall|s: int|
                                #[trigger] visited_g.contains(s) implies popped.contains(s)
                                || list_has_slot(to_eval@, s) by {
                                if s == ps {
                                    assert(to_eval@[to_eval@.len() - 1].slot_view() == s);
                                } else if !popped.contains(s) && !prev_vg.contains(s) {
                                    assert(false);
                                } else if !popped.contains(s) {
                                    let j = choose|j: int|
                                        0 <= j < prev_te.len() && (#[trigger] prev_te[
                                            j
                                        ]).slot_view() == s;
                                    assert(to_eval@[j].slot_view() == s);
                                }
                            }
                            if !popped.contains(tslot) {
                                let j = choose|j: int|
                                    0 <= j < prev_te.len() && (#[trigger] prev_te[j]).slot_view()
                                        == tslot;
                                assert(to_eval@[j].slot_view() == tslot);
                            }
                        }
                    }
                }
            }
        }
        proof {
            // the stack is spent: everything marked got searched, and the
            // recorded facts close the walk
            assert(popped.contains(tslot));
            assert forall|s: int|
                #[trigger] popped.contains(s) && !node_settled(nodes, s) implies forall|j: int|
                0 <= j < edge_parents(nodes[s].spec_edge()).len() ==> popped.contains(
                    (#[trigger] edge_parents(nodes[s].spec_edge())[j]).slot_view() as int,
                ) by {
                assert forall|j: int|
                    0 <= j < edge_parents(nodes[s].spec_edge()).len() implies popped.contains(
                    (#[trigger] edge_parents(nodes[s].spec_edge())[j]).slot_view() as int,
                ) by {
                    let pk = edge_parents(nodes[s].spec_edge())[j];
                    assert(visited_g.contains(pk.slot_view() as int));
                }
            }
            assert forall|s: int| #[trigger] reaches(nodes, tslot, s) implies popped.contains(
                s,
            ) by {
                lemma_walk_complete(nodes, popped, tslot, s);
            }
            assert(open_list_ok(nodes, tslot, open@));
            assert(children_map_ok(nodes, tslot, node_to_children@));
        }
        Ok((open, node_to_children))
    }

    /// True when every parent of the node is in the processed set.
    fn all_parents_processed(&self, c: &NodeKey, processed: &HashSet<u64>) -> (r: bool)
        requires
            c.slot_view() < self.nodes_seq().len(),
        ensures
            r <==> forall|j: int|
                0 <= j < edge_parents(
                    self.nodes_seq()[c.slot_view() as int].spec_edge(),
                ).len() ==> processed@.contains(
                    (#[trigger] edge_parents(
                        self.nodes_seq()[c.slot_view() as int].spec_edge(),
                    )[j]).slot_view() as u64,
                ),
    {
        let ghost pseq = edge_parents(self.nodes_seq()[c.slot_view() as int].spec_edge());
        let node = match self.get_node(c) {
            Some(nd) => nd,
            None => {
                proof {
                    assert(false);
                }
                unreached()
            },
        };
        let parents = node.edge().parent_keys();
        let num = parents.len();
        for j in 0..num
            invariant
                num == pseq.len(),
                parents@ == pseq,
                c.slot_view() < self.nodes_seq().len(),
                pseq == edge_parents(self.nodes_seq()[c.slot_view() as int].spec_edge()),
                forall|i: int|
                    0 <= i < j ==> processed@.contains((#[trigger] pseq[i]).slot_view() as u64),
        {
            let kk: u64 = parents[j].slot() as u64;
            let present = processed.contains(&kk);
            proof {
                assert(present == processed@.contains(kk));
                assert(kk == pseq[j as int].slot_view() as u64);
            }
            if !present {
                proof {
                    let full = edge_parents(self.nodes_seq()[c.slot_view() as int].spec_edge());
                    assert(0 <= j < full.len() && !processed@.contains(
                        full[j as int].slot_view() as u64,
                    ));
                    assert(!(forall|i: int|
                        0 <= i < full.len() ==> processed@.contains(
                            (#[trigger] full[i]).slot_view() as u64,
                        )));
                }
                return false;
            }
            proof {
                assert(processed@.contains(pseq[j as int].slot_view() as u64));
            }
        }
        true
    }

    /// Resolves parent handles to tensors: a transient cache entry wins,
    /// else the node's stored tensor, which must then be present.
    fn gather_inputs(&self, parents: &Vec<NodeKey>, cache: &HashMap<u64, Array>) -> (r: Vec<
        Array,
    >)
        requires
            forall|v: u64|
                #[trigger] cache@.contains_key(v) ==> cache@[v].valid(),
            forall|j: int|
                0 <= j < parents@.len() ==> {
                    let sl = (#[trigger] parents@[j]).slot_view();
                    &&& sl < self.nodes_seq().len()
                    &&& (cache@.contains_key(sl as u64) || (self.nodes_seq()[
                        sl as int
                    ].spec_tensor() is Some && self.nodes_seq()[
                        sl as int
                    ].spec_tensor()->Some_0.valid()))
                },
        ensures
            r@.len() == parents@.len(),
            forall|j: int|
                0 <= j < parents@.len() ==> {
                    let sl = (#[trigger] parents@[j]).slot_view();
                    &&& r@[j].valid()
                    &&& tview(r@[j]) == (if cache@.contains_key(sl as u64) {
                        tview(cache@[sl as u64])
                    } else {
                        tview(self.nodes_seq()[sl as int].spec_tensor()->Some_0)
                    })
                },
    {
        let mut out: Vec<Array> = Vec::new();
        let num = parents.len();
        for j in 0..num
            invariant
                num == parents@.len(),
                out@.len() == j,
                forall|v: u64| #[trigger] cache@.contains_key(v) ==> cache@[v].valid(),
                forall|i: int|
                    0 <= i < num ==> {
                        let sl = (#[trigger] parents@[i]).slot_view();
                        &&& sl < self.nodes_seq().len()
                        &&& (cache@.contains_key(sl as u64) || (self.nodes_seq()[
                            sl as int
                        ].spec_tensor() is Some && self.nodes_seq()[
                            sl as int
                        ].spec_tensor()->Some_0.valid()))
                    },
                forall|i: int|
                    0 <= i < j ==> {
                        let sl = (#[trigger] parents@[i]).slot_view();
                        &&& out@[i].valid()
                        &&& tview(out@[i]) == (if cache@.contains_key(sl as u64) {
                            tview(cache@[sl as u64])
                        } else {
                            tview(self.nodes_seq()[sl as int].spec_tensor()->Some_0)
                        })
                    },
        {
            let pk = parents[j];
            let sl64: u64 = pk.slot() as u64;
            match cache.get(&sl64) {
                Some(t) => {
                    out.push(t.duplicate());
                },
                None => {
                    let node = match self.get_node(&pk) {
                        Some(nd) => nd,
                        None => {
                            proof {
                                assert(false);
                            }
                            unreached()
                        },
                    };
                    let t = match node.tensor() {
                        Some(t) => t,
                        None => {
                            proof {
                                assert(false);
                            }
                            unreached()
                        },
                    };
                    out.push(t.duplicate());
                },
            }
        }
        out
    }

    /// Kahn-style evaluation that stores every computed tensor permanently:
    /// pops ready nodes, resolves parents from node storage, computes, and
    /// schedules children whose parents are all done.
    #[verifier::rlimit(40)]
    fn populating_eval_node(&mut self, target: &NodeKey) -> (r: Result<(), ComputationGraphError>)
        requires
            old(self).wf(),
            old(self).calls_view() + old(self).nodes_seq().len() <= u64::MAX,
        ensures
            final(self).wf(),
            eval_frame(
                old(self).nodes_seq(),
                final(self).nodes_seq(),
                target.slot_view() as int,
            ),
            final(self).calls_view() == old(self).calls_view() + newly_settled(
                old(self).nodes_seq(),
                final(self).nodes_seq(),
            ).len(),
            r is Ok <==> (target.slot_view() < old(self).nodes_seq().len() && den(
                old(self).nodes_seq(),
                target.slot_view() as int,
            ) is Some),
            r is Ok ==> final(self).nodes_seq()[target.slot_view() as int].spec_tensor() is Some,
            r matches Err(e) ==> ((e matches ComputationGraphError::NodeDoesNotExist(k) && k
                == *target && target.slot_view() >= old(self).nodes_seq().len()) || (
            e is ComputationError && target.slot_view() < old(self).nodes_seq().len() && den(
                old(self).nodes_seq(),
                target.slot_view() as int,
            ) is None)),
    {
        let ghost nodes0 = self.nodes_seq();
        let ghost n = nodes0.len() as int;
        let ghost tslot = target.slot_view() as int;
        let ghost calls0 = self.calls_view();
        let arena_len = self.nodes.len();
        proof {
            assert(n == arena_len as int);
        }
        let (open_roots, node_to_children) = match self.generate_node_to_children(target) {
            Ok(pair) => pair,
            Err(e) => {
                proof {
                    assert(newly_settled(nodes0, self.nodes_seq()) =~= Set::<int>::empty());
                    vstd::set_lib::lemma_int_range(0, 0);
                    assert(Set::<int>::empty().len() == 0) by {
                        assert(Set::<int>::empty() =~= vstd::set_lib::set_int_range(0, 0));
                    }
                }
                return Err(e);
            },
        };
        let mut open = open_roots;
        let mut processed: HashSet<u64> = HashSet::new();
        let mut scheduled: HashSet<u64> = HashSet::new();
        let ghost mut sched_g: Set<int> = Set::empty();
        let ghost mut popped: Set<int> = Set::empty();
        let ghost mut computed_g: Set<int> = Set::empty();
        let num_open = open.len();
        for j in 0..num_open
            invariant
                num_open == open@.len(),
                open_list_ok(nodes0, tslot, open@),
                n == nodes0.len() as int,
                n <= usize::MAX,
                0 <= tslot < n,
                forall|s: int|
                    0 <= s < n ==> ((#[trigger] processed@.contains(s as u64)) <==> exists|i: int|
                        0 <= i < j && (#[trigger] open@[i]).slot_view() == s),
                forall|s: int|
                    0 <= s < n ==> ((#[trigger] scheduled@.contains(s as u64)) <==> sched_g.contains(
                        s,
                    )),
                forall|s: int| #[trigger] sched_g.contains(s) ==> 0 <= s < n,
                sched_g.finite(),
                sched_g.len() <= n,
                forall|s: int|
                    #[trigger] sched_g.contains(s) ==> exists|i: int|
                        0 <= i < j && (#[trigger] open@[i]).slot_view() == s,
                forall|i: int|
                    0 <= i < j ==> sched_g.contains((#[trigger] open@[i]).slot_view() as int),
        {
            let sl64: u64 = open[j].slot() as u64;
            processed.insert(sl64);
            scheduled.insert(sl64);
            proof {
                assert(reaches(nodes0, tslot, open@[j as int].slot_view() as int));
                lemma_reaches_le(nodes0, tslot, open@[j as int].slot_view() as int);
                sched_g = sched_g.insert(open@[j as int].slot_view() as int);
                vstd::set_lib::lemma_int_range(0, n);
                assert(sched_g.subset_of(vstd::set_lib::set_int_range(0, n)));
                vstd::set_lib::lemma_len_subset(sched_g, vstd::set_lib::set_int_range(0, n));
            }
        }
        proof {
            assert(newly_settled(nodes0, self.nodes_seq()) =~= Set::<int>::empty());
            assert(computed_g =~= newly_settled(nodes0, self.nodes_seq()));
        }
        let empty_cache: HashMap<u64, Array> = HashMap::new();
        while open.len() > 0
            invariant
                nodes0 == old(self).nodes_seq(),
                tslot == target.slot_view() as int,
                calls0 == old(self).calls_view(),
                nodes_wf(nodes0),
                n == nodes0.len() as int,
                n <= usize::MAX,
                0 <= tslot < n,
                calls0 + n <= u64::MAX,
                self.nodes_seq().len() == n,
                empty_cache@ == Map::<u64, Array>::empty(),
                children_map_ok(nodes0, tslot, node_to_children@),
                // the wiring and the existing caches are untouched
                forall|i: int|
                    0 <= i < n ==> (#[trigger] self.nodes_seq()[i]).spec_edge()
                        == nodes0[i].spec_edge(),
                forall|i: int|
                    0 <= i < n && nodes0[i].spec_tensor() is Some ==> (#[trigger] self.nodes_seq()[
                        i
                    ]).spec_tensor() == nodes0[i].spec_tensor(),
                // every cache present carries its node's denotation
                forall|i: int|
                    0 <= i < n && (#[trigger] self.nodes_seq()[i]).spec_tensor() is Some
                        ==> self.nodes_seq()[i].spec_tensor()->Some_0.valid() && den(nodes0, i)
                        == Some(tview(self.nodes_seq()[i].spec_tensor()->Some_0)),
                forall|i: int|
                    0 <= i < n && nodes0[i].spec_tensor() is None && (#[trigger] self.nodes_seq()[
                        i
                    ]).spec_tensor() is Some ==> reaches(nodes0, tslot, i),
                // the kernel counter tracks the fresh caches exactly
                forall|s: int|
                    #[trigger] computed_g.contains(s) <==> (0 <= s < n && nodes0[
                        s
                    ].spec_tensor() is None && self.nodes_seq()[s].spec_tensor() is Some),
                computed_g.finite(),
                forall|s: int| #[trigger] computed_g.contains(s) ==> 0 <= s < n,
                self.calls_view() == calls0 + computed_g.len(),
                // processed nodes are computed walk finds
                forall|s: int|
                    0 <= s < n && #[trigger] processed@.contains(s as u64) ==> reaches(
                        nodes0,
                        tslot,
                        s,
                    ) && self.nodes_seq()[s].spec_tensor() is Some,
                forall|s: int| #[trigger] popped.contains(s) ==> 0 <= s < n && processed@.contains(
                    s as u64,
                ),
                // agenda entries are scheduled, ready walk finds
                forall|j: int|
                    0 <= j < open@.len() ==> {
                        let sl = (#[trigger] open@[j]).slot_view() as int;
                        &&& sl < n
                        &&& reaches(nodes0, tslot, sl)
                        &&& sched_g.contains(sl)
                        &&& (node_settled(nodes0, sl) || forall|jj: int|
                            0 <= jj < edge_parents(nodes0[sl].spec_edge()).len()
                                ==> processed@.contains(
                                (#[trigger] edge_parents(
                                    nodes0[sl].spec_edge(),
                                )[jj]).slot_view() as u64,
                            ))
                    },
                // scheduling bookkeeping
                forall|s: int|
                    0 <= s < n ==> ((#[trigger] scheduled@.contains(s as u64)) <==> sched_g.contains(
                        s,
                    )),
                forall|s: int| #[trigger] sched_g.contains(s) ==> 0 <= s < n && reaches(
                    nodes0,
                    tslot,
                    s,
                ),
                sched_g.finite(),
                sched_g.len() <= n,
                forall|s: int|
                    #[trigger] sched_g.contains(s) ==> popped.contains(s) || list_has_slot(
                        open@,
                        s,
                    ),
                // the computed sources the walk finds all pass through the agenda
                forall|s: int|
                    reaches(nodes0, tslot, s) && node_settled(nodes0, s)
                        ==> #[trigger] popped.contains(s) || list_has_slot(open@, s),
                // an uncomputed walk find is scheduled once its parents are spent
                forall|s: int|
                    0 <= s < n && reaches(nodes0, tslot, s) && !node_settled(nodes0, s)
                        ==> #[trigger] sched_g.contains(s) || exists|j: int|
                        0 <= j < edge_parents(nodes0[s].spec_edge()).len() && !popped.contains(
                            (#[trigger] edge_parents(
                                nodes0[s].spec_edge(),
                            )[j]).slot_view() as int,
                        ),
            decreases n - sched_g.len(), open@.len(),
        {
            let ghost prev_open = open@;
            let ghost prev_popped = popped;
            let node_key = match open.pop() {
                Some(k) => k,
                None => {
                    proof {
                        assert(false);
                    }
                    *target
                },
            };
            let ghost cur = node_key.slot_view() as int;
            proof {
                popped = popped.insert(cur);
                assert forall|s: int|
                    #[trigger] sched_g.contains(s) implies popped.contains(s) || list_has_slot(
                    open@,
                    s,
                ) by {
                    if !prev_popped.contains(s) && s != cur {
                        let j = choose|j: int|
                            0 <= j < prev_open.len() && (#[trigger] prev_open[j]).slot_view()
                                == s;
                        if j < prev_open.len() - 1 {
                            assert(open@[j].slot_view() == s);
                        } else {
                            assert(s == cur);
                        }
                    }
                }
                assert forall|s: int|
                    reaches(nodes0, tslot, s) && node_settled(nodes0, s) implies
                    #[trigger] popped.contains(s) || list_has_slot(open@, s) by {
                    if !prev_popped.contains(s) && s != cur {
                        let j = choose|j: int|
                            0 <= j < prev_open.len() && (#[trigger] prev_open[j]).slot_view()
                                == s;
                        if j < prev_open.len() - 1 {
                            assert(open@[j].slot_view() == s);
                        } else {
                            assert(s == cur);
                        }
                    }
                }
            }
            let node = match self.get_node(&node_key) {
                Some(nd) => nd,
                None => {
                    proof {
                        assert(false);
                    }
                    return Err(ComputationGraphError::NodeDoesNotExist(*target));
                },
            };
            let needs_compute = node.tensor().is_none();
            if needs_compute {
                proof {
                    assert(!node_settled(nodes0, cur));
                }
                let edge_copy: Edge = *node.edge();
                let parents = edge_copy.parent_keys();
                let ghost pseq = edge_parents(nodes0[cur].spec_edge());
                proof {
                    assert(parents@ == pseq);
                    assert forall|j: int| 0 <= j < pseq.len() implies {
                        let sl = (#[trigger] pseq[j]).slot_view();
                        &&& sl < self.nodes_seq().len()
                        &&& self.nodes_seq()[sl as int].spec_tensor() is Some
                        &&& self.nodes_seq()[sl as int].spec_tensor()->Some_0.valid()
                    } by {
                        assert(processed@.contains(pseq[j].slot_view() as u64));
                    }
                }
                let inputs = self.gather_inputs(&parents, &empty_cache);
                let out = edge_copy.compute_tensor(&inputs);
                proof {
                    let ins = Seq::new(inputs@.len(), |i: int| tview(inputs@[i]));
                    assert forall|j: int| 0 <= j < pseq.len() implies 0 <= (
                    #[trigger] pseq[j]).slot_view() < cur && den(
                        nodes0,
                        pseq[j].slot_view() as int,
                    ) is Some by {
                        assert(processed@.contains(pseq[j].slot_view() as u64));
                    }
                    lemma_den_list_build(nodes0, pseq, cur);
                    let tvs = den_list(nodes0, pseq, cur)->Some_0;
                    assert(ins =~= tvs) by {
                        assert forall|j: int| 0 <= j < pseq.len() implies ins[j] == tvs[j] by {
                            assert(tview(inputs@[j]) == tview(
                                self.nodes_seq()[pseq[j].slot_view() as int].spec_tensor()->Some_0,
                            ));
                            assert(den(nodes0, pseq[j].slot_view() as int) == Some(
                                tview(
                                    self.nodes_seq()[
                                        pseq[j].slot_view() as int
                                    ].spec_tensor()->Some_0,
                                ),
                            ));
                        }
                    }
                    assert(!(nodes0[cur].spec_edge() is Root));
                    assert(den(nodes0, cur) == edge_apply(nodes0[cur].spec_edge(), tvs));
                }
                match out {
                    Ok(t) => {
                        proof {
                            assert(den(nodes0, cur) == Some(tview(t)));
                        }
                        let mut fresh = Node::create_node(edge_copy);
                        fresh.set_tensor(t);
                        let ghost fresh_node = fresh;
                        let ghost prev_nodes = self.nodes_seq();
                        let ok = self.nodes.set(node_key.raw(), fresh);
                        proof {
                            assert(ok);
                            assert(self.nodes_seq() == prev_nodes.update(cur, fresh_node));
                            assert(!computed_g.contains(cur));
                            computed_g = computed_g.insert(cur);
                            assert(computed_g.len() == computed_g.remove(cur).len() + 1) by {
                                assert(computed_g.remove(cur).insert(cur) =~= computed_g);
                            }
                            vstd::set_lib::lemma_int_range(0, n);
                            assert(computed_g.subset_of(vstd::set_lib::set_int_range(0, n)));
                            vstd::set_lib::lemma_len_subset(
                                computed_g,
                                vstd::set_lib::set_int_range(0, n),
                            );
                            assert(computed_g.len() <= n);
                        }
                        self.kernel_calls = self.kernel_calls + 1;
                        proof {
                            assert(self.nodes_seq() == prev_nodes.update(cur, fresh_node));
                            assert forall|i: int|
                                #[trigger] computed_g.contains(i) <==> (0 <= i < n && nodes0[
                                i
                            ].spec_tensor() is None && self.nodes_seq()[
                                i
                            ].spec_tensor() is Some) by {
                                if 0 <= i < n && i != cur {
                                    assert(self.nodes_seq()[i] == prev_nodes[i]);
                                }
                            }
                        }
                    },
                    Err(e) => {
                        proof {
                            assert(den(nodes0, cur) is None);
                            assert(reaches(nodes0, tslot, cur));
                            lemma_den_none_up(nodes0, tslot, cur);
                            assert(den(nodes0, tslot) is None);
                            lemma_wf_from_frame(nodes0, self.nodes_seq());
                            assert(newly_settled(nodes0, self.nodes_seq()) =~= computed_g);
                            assert(newly_settled(nodes0, self.nodes_seq()).len()
                                == computed_g.len());
                            assert(eval_frame(nodes0, self.nodes_seq(), tslot));
                        }
                        return Err(e);
                    },
                }
            }
            let cur64: u64 = node_key.slot() as u64;
            processed.insert(cur64);
            proof {
                assert(self.nodes_seq()[cur].spec_tensor() is Some);
            }
            match node_to_children.get(&cur64) {
                None => {
                    proof {
                        assert forall|s: int|
                            0 <= s < n && reaches(nodes0, tslot, s) && !node_settled(nodes0, s)
                                implies #[trigger] sched_g.contains(s) || exists|j: int|
                            0 <= j < edge_parents(nodes0[s].spec_edge()).len()
                                && !popped.contains(
                                (#[trigger] edge_parents(
                                    nodes0[s].spec_edge(),
                                )[j]).slot_view() as int,
                            ) by {
                            if !sched_g.contains(s) {
                                let j = choose|j: int|
                                    0 <= j < edge_parents(nodes0[s].spec_edge()).len()
                                        && !prev_popped.contains(
                                        (#[trigger] edge_parents(
                                            nodes0[s].spec_edge(),
                                        )[j]).slot_view() as int,
                                    );
                                let p = edge_parents(nodes0[s].spec_edge())[j].slot_view() as int;
                                if p == cur {
                                    assert(node_to_children@.contains_key(cur64));
                                    assert(false);
                                }
                            }
                        }
                    }
                },
                Some(children_list) => {
                    let ghost entry_sched = sched_g;
                    let ghost entry_open = open@.len() as int;
                    let ghost snap = self.nodes_seq();
                    let ghost snap_calls = self.calls_view();
                    let numc = children_list.len();
                    for ci in 0..numc
                        invariant
                            self.nodes_seq() == snap,
                            self.calls_view() == snap_calls,
                            forall|i: int|
                                0 <= i < n ==> (#[trigger] snap[i]).spec_edge() == nodes0[
                                    i
                                ].spec_edge(),
                            entry_sched.finite(),
                            entry_sched.subset_of(sched_g),
                            sched_g.len() > entry_sched.len() || (sched_g == entry_sched
                                && open@.len() == entry_open),
                            nodes_wf(nodes0),
                            n == nodes0.len() as int,
                            n <= usize::MAX,
                            0 <= tslot < n,
                            0 <= cur < n,
                            self.nodes_seq().len() == n,
                            numc == children_list@.len(),
                            child_list_ok(nodes0, tslot, cur64, children_list@),
                            node_to_children@.contains_key(cur64),
                            node_to_children@[cur64] == *children_list,
                            children_map_ok(nodes0, tslot, node_to_children@),
                            forall|s: int|
                                0 <= s < n && #[trigger] processed@.contains(s as u64)
                                    ==> reaches(nodes0, tslot, s) && self.nodes_seq()[
                                    s
                                ].spec_tensor() is Some,
                            forall|s: int| #[trigger] popped.contains(s) ==> 0 <= s < n
                                && processed@.contains(s as u64),
                            popped.contains(cur),
                            forall|j: int|
                                0 <= j < open@.len() ==> {
                                    let sl = (#[trigger] open@[j]).slot_view() as int;
                                    &&& sl < n
                                    &&& reaches(nodes0, tslot, sl)
                                    &&& sched_g.contains(sl)
                                    &&& (node_settled(nodes0, sl) || forall|jj: int|
                                        0 <= jj < edge_parents(nodes0[sl].spec_edge()).len()
                                            ==> processed@.contains(
                                            (#[trigger] edge_parents(
                                                nodes0[sl].spec_edge(),
                                            )[jj]).slot_view() as u64,
                                        ))
                                },
                            forall|s: int|
                                0 <= s < n ==> ((#[trigger] scheduled@.contains(s as u64))
                                    <==> sched_g.contains(s)),
                            forall|s: int| #[trigger] sched_g.contains(s) ==> 0 <= s < n
                                && reaches(nodes0, tslot, s),
                            sched_g.finite(),
                            sched_g.len() <= n,
                            forall|s: int|
                                #[trigger] sched_g.contains(s) ==> popped.contains(s)
                                    || list_has_slot(open@, s),
                            forall|s: int|
                                reaches(nodes0, tslot, s) && node_settled(nodes0, s)
                                    ==> #[trigger] popped.contains(s) || list_has_slot(
                                    open@,
                                    s,
                                ),
                            // handled children so far are scheduled or still blocked
                            forall|i: int|
                                0 <= i < ci ==> {
                                    let x = (#[trigger] children_list@[i]).slot_view() as int;
                                    sched_g.contains(x) || exists|j: int|
                                        0 <= j < edge_parents(nodes0[x].spec_edge()).len()
                                            && !processed@.contains(
                                            (#[trigger] edge_parents(
                                                nodes0[x].spec_edge(),
                                            )[j]).slot_view() as u64,
                                        )
                                },
                            // the global scheduling promise, paused at cur
                            forall|s: int|
                                0 <= s < n && reaches(nodes0, tslot, s) && !node_settled(
                                    nodes0,
                                    s,
                                ) ==> #[trigger] sched_g.contains(s) || exists|j: int|
                                    0 <= j < edge_parents(nodes0[s].spec_edge()).len()
                                        && !prev_popped.contains(
                                        (#[trigger] edge_parents(
                                            nodes0[s].spec_edge(),
                                        )[j]).slot_view() as int,
                                    ),
                            popped == prev_popped.insert(cur),
                        decreases numc - ci,
                    {
                        let child = children_list[ci];
                        let ghost x = child.slot_view() as int;
                        proof {
                            assert(reaches(nodes0, tslot, x));
                            lemma_reaches_le(nodes0, tslot, x);
                        }
                        let child64: u64 = child.slot() as u64;
                        let ready = self.all_parents_processed(&child, &processed);
                        proof {
                            assert(self.nodes_seq()[x].spec_edge() == nodes0[x].spec_edge());
                            assert(edge_parents(self.nodes_seq()[x].spec_edge()) == edge_parents(
                                nodes0[x].spec_edge(),
                            ));
                        }
                        let already = scheduled.contains(&child64);
                        if ready && !already {
                            let ghost prev_o = open@;
                            open.push(child);
                            scheduled.insert(child64);
                            proof {
                                let ghost prev_sched = sched_g;
                                sched_g = sched_g.insert(x);
                                assert(!prev_sched.contains(x));
                                assert(sched_g.len() == prev_sched.len() + 1);
                                vstd::set_lib::lemma_int_range(0, n);
                                assert(sched_g.subset_of(vstd::set_lib::set_int_range(0, n)));
                                vstd::set_lib::lemma_len_subset(
                                    sched_g,
                                    vstd::set_lib::set_int_range(0, n),
                                );
                                assert(open@[open@.len() - 1].slot_view() as int == x);
                                assert forall|s: int|
                                    #[trigger] sched_g.contains(s) implies popped.contains(s)
                                    || list_has_slot(open@, s) by {
                                    if s != x && !popped.contains(s) {
                                        let j = choose|j: int|
                                            0 <= j < prev_o.len() && (#[trigger] prev_o[
                                                j
                                            ]).slot_view() == s;
                                        assert(open@[j].slot_view() == s);
                                    }
                                }
                                assert forall|s: int|
                                    reaches(nodes0, tslot, s) && node_settled(nodes0, s) implies
                                    #[trigger] popped.contains(s) || list_has_slot(open@, s) by {
                                    if !popped.contains(s) {
                                        let j = choose|j: int|
                                            0 <= j < prev_o.len() && (#[trigger] prev_o[
                                                j
                                            ]).slot_view() == s;
                                        assert(open@[j].slot_view() == s);
                                    }
                                }
                            }
                        } else {
                            proof {
                                if !ready {
                                    let full = edge_parents(nodes0[x].spec_edge());
                                    assert(!(forall|j: int|
                                        0 <= j < full.len() ==> processed@.contains(
                                            (#[trigger] full[j]).slot_view() as u64,
                                        )));
                                }
                            }
                        }
                    }
                    proof {
                        // cur's children are all handled, so the scheduling
                        // promise holds again with cur spent
                        assert forall|s: int|
                            0 <= s < n && reaches(nodes0, tslot, s) && !node_settled(nodes0, s)
                                implies #[trigger] sched_g.contains(s) || exists|j: int|
                            0 <= j < edge_parents(nodes0[s].spec_edge()).len() && !popped.contains(
                                (#[trigger] edge_parents(
                                    nodes0[s].spec_edge(),
                                )[j]).slot_view() as int,
                            ) by {
                            if !sched_g.contains(s) {
                                let j = choose|j: int|
                                    0 <= j < edge_parents(nodes0[s].spec_edge()).len()
                                        && !prev_popped.contains(
                                        (#[trigger] edge_parents(
                                            nodes0[s].spec_edge(),
                                        )[j]).slot_view() as int,
                                    );
                                let p = edge_parents(nodes0[s].spec_edge())[j].slot_view() as int;
                                if p == cur {
                                    assert(list_has_slot(node_to_children@[cur64]@, s));
                                    let i = choose|i: int|
                                        0 <= i < children_list@.len() && (
                                        #[trigger] children_list@[i]).slot_view() == s;
                                    assert(sched_g.contains(s) || exists|jj: int|
                                        0 <= jj < edge_parents(nodes0[s].spec_edge()).len()
                                            && !processed@.contains(
                                            (#[trigger] edge_parents(
                                                nodes0[s].spec_edge(),
                                            )[jj]).slot_view() as u64,
                                        ));
                                    let jj = choose|jj: int|
                                        0 <= jj < edge_parents(nodes0[s].spec_edge()).len()
                                            && !processed@.contains(
                                            (#[trigger] edge_parents(
                                                nodes0[s].spec_edge(),
                                            )[jj]).slot_view() as u64,
                                        );
                                    assert(!popped.contains(
                                        edge_parents(nodes0[s].spec_edge())[jj].slot_view() as int,
                                    ));
                                }
                            }
                        }
                    }
                },
            }
        }
        proof {
            assert forall|s: int| #[trigger] sched_g.contains(s) implies popped.contains(s) by {
                if !popped.contains(s) {
                    assert(list_has_slot(open@, s));
                    assert(false);
                }
            }
            assert forall|s: int|
                reaches(nodes0, tslot, s) && node_settled(nodes0, s) implies
                #[trigger] popped.contains(s) by {
                if !popped.contains(s) {
                    assert(list_has_slot(open@, s));
                    assert(false);
                }
            }
            if !node_settled(nodes0, tslot) {
                assert(reaches(nodes0, tslot, tslot)) by {
                    reveal(reaches);
                }
                lemma_eval_complete(nodes0, tslot, popped, sched_g, tslot);
                assert(self.nodes_seq()[tslot].spec_tensor() is Some);
            } else {
                assert(self.nodes_seq()[tslot].spec_tensor() is Some);
            }
            lemma_wf_from_frame(nodes0, self.nodes_seq());
            assert(newly_settled(nodes0, self.nodes_seq()) =~= computed_g);
            assert(den(nodes0, tslot) is Some);
        }
        Ok(())
    }

    /// Evaluates the target, memoizing every intermediate permanently in its
    /// node; results stay cached until explicitly cleared.
    pub fn populating_eval(&mut self, target: &CompGraphTensor) -> (r: Result<
        (),
        ComputationGraphError,
    >)
        requires
            old(self).wf(),
            old(self).calls_view() + old(self).nodes_seq().len() <= u64::MAX,
        ensures
            final(self).wf(),
            eval_frame(
                old(self).nodes_seq(),
                final(self).nodes_seq(),
                target.slot_view() as int,
            ),
            final(self).calls_view() == old(self).calls_view() + newly_settled(
                old(self).nodes_seq(),
                final(self).nodes_seq(),
            ).len(),
            r is Ok <==> (target.slot_view() < old(self).nodes_seq().len() && den(
                old(self).nodes_seq(),
                target.slot_view() as int,
            ) is Some),
            r is Ok ==> final(self).nodes_seq()[target.slot_view() as int].spec_tensor() is Some,
            r matches Err(e) ==> ((e matches ComputationGraphError::NodeDoesNotExist(k) && k
                == target.key() && target.slot_view() >= old(self).nodes_seq().len()) || (
            e is ComputationError && target.slot_view() < old(self).nodes_seq().len() && den(
                old(self).nodes_seq(),
                target.slot_view() as int,
            ) is None)),
    {
        self.populating_eval_node(target.node_key())
    }

    /// Kahn-style evaluation that keeps intermediates in a transient cache,
    /// evicting each entry once all of its consumers hold theirs; only the
    /// target's result is written back into node storage at the end.
    #[verifier::rlimit(40)]
    fn non_populating_eval_node(&mut self, target: &NodeKey) -> (r: Result<
        (),
        ComputationGraphError,
    >)
        requires
            old(self).wf(),
            old(self).calls_view() + old(self).nodes_seq().len() <= u64::MAX,
        ensures
            final(self).wf(),
            final(self).nodes_seq().len() == old(self).nodes_seq().len(),
            forall|i: int|
                0 <= i < old(self).nodes_seq().len() && i != target.slot_view()
                    ==> final(self).nodes_seq()[i] == old(self).nodes_seq()[i],
            forall|i: int|
                0 <= i < old(self).nodes_seq().len() ==> (#[trigger] final(self).nodes_seq()[
                    i
                ]).spec_edge() == old(self).nodes_seq()[i].spec_edge(),
            forall|i: int|
                0 <= i < old(self).nodes_seq().len() && old(self).nodes_seq()[
                    i
                ].spec_tensor() is Some ==> (#[trigger] final(self).nodes_seq()[i]).spec_tensor()
                    == old(self).nodes_seq()[i].spec_tensor(),
            old(self).calls_view() <= final(self).calls_view() <= old(self).calls_view() + old(
                self,
            ).nodes_seq().len(),
            target.slot_view() < old(self).nodes_seq().len() && old(self).nodes_seq()[
                target.slot_view() as int
            ].spec_tensor() is Some ==> final(self).nodes_seq() == old(self).nodes_seq()
                && final(self).calls_view() == old(self).calls_view(),
            r is Ok <==> (target.slot_view() < old(self).nodes_seq().len() && den(
                old(self).nodes_seq(),
                target.slot_view() as int,
            ) is Some),
            r is Ok ==> (final(self).nodes_seq()[target.slot_view() as int].spec_tensor()
                matches Some(t) && Some(tview(t)) == den(
                old(self).nodes_seq(),
                target.slot_view() as int,
            )),
            r is Err ==> final(self).nodes_seq() == old(self).nodes_seq(),
            r matches Err(e) ==> ((e matches ComputationGraphError::NodeDoesNotExist(k) && k
                == *target && target.slot_view() >= old(self).nodes_seq().len()) || (
            e is ComputationError && target.slot_view() < old(self).nodes_seq().len() && den(
                old(self).nodes_seq(),
                target.slot_view() as int,
            ) is None)),
    {
        let ghost nodes0 = self.nodes_seq();
        let ghost n = nodes0.len() as int;
        let ghost tslot = target.slot_view() as int;
        let ghost calls0 = self.calls_view();
        let arena_len = self.nodes.len();
        proof {
            assert(n == arena_len as int);
        }
        let (open_roots, node_to_children) = match self.generate_node_to_children(target) {
            Ok(pair) => pair,
            Err(e) => {
                return Err(e);
            },
        };
        let mut open = open_roots;
        let mut processed: HashSet<u64> = HashSet::new();
        let mut scheduled: HashSet<u64> = HashSet::new();
        let mut comp_cache: HashMap<u64, Array> = HashMap::new();
        let ghost mut sched_g: Set<int> = Set::empty();
        let ghost mut popped: Set<int> = Set::empty();
        let ghost mut computed_g: Set<int> = Set::empty();
        let num_open = open.len();
        for j in 0..num_open
            invariant
                num_open == open@.len(),
                open_list_ok(nodes0, tslot, open@),
                n == nodes0.len() as int,
                n <= usize::MAX,
                0 <= tslot < n,
                forall|s: int|
                    0 <= s < n ==> ((#[trigger] processed@.contains(s as u64)) <==> exists|i: int|
                        0 <= i < j && (#[trigger] open@[i]).slot_view() == s),
                forall|s: int|
                    0 <= s < n ==> ((#[trigger] scheduled@.contains(s as u64)) <==> sched_g.contains(
                        s,
                    )),
                forall|s: int| #[trigger] sched_g.contains(s) ==> 0 <= s < n,
                sched_g.finite(),
                sched_g.len() <= n,
                forall|s: int|
                    #[trigger] sched_g.contains(s) ==> exists|i: int|
                        0 <= i < j && (#[trigger] open@[i]).slot_view() == s,
                forall|i: int|
                    0 <= i < j ==> sched_g.contains((#[trigger] open@[i]).slot_view() as int),
        {
            let sl64: u64 = open[j].slot() as u64;
            processed.insert(sl64);
            scheduled.insert(sl64);
            proof {
                assert(reaches(nodes0, tslot, open@[j as int].slot_view() as int));
                lemma_reaches_le(nodes0, tslot, open@[j as int].slot_view() as int);
                sched_g = sched_g.insert(open@[j as int].slot_view() as int);
                vstd::set_lib::lemma_int_range(0, n);
                assert(sched_g.subset_of(vstd::set_lib::set_int_range(0, n)));
                vstd::set_lib::lemma_len_subset(sched_g, vstd::set_lib::set_int_range(0, n));
            }
        }
        while open.len() > 0
            invariant
                nodes0 == old(self).nodes_seq(),
                tslot == target.slot_view() as int,
                calls0 == old(self).calls_view(),
                nodes_wf(nodes0),
                n == nodes0.len() as int,
                n <= usize::MAX,
                0 <= tslot < n,
                calls0 + n <= u64::MAX,
                self.nodes_seq() == nodes0,
                children_map_ok(nodes0, tslot, node_to_children@),
                // transient entries carry their nodes' denotations
                forall|s: int|
                    0 <= s < n && #[trigger] comp_cache@.contains_key(s as u64) ==> {
                        &&& comp_cache@[s as u64].valid()
                        &&& den(nodes0, s) == Some(tview(comp_cache@[s as u64]))
                        &&& !node_settled(nodes0, s)
                        &&& processed@.contains(s as u64)
                    },
                forall|v: u64| #[trigger] comp_cache@.contains_key(v) ==> v < n as u64,
                // the kernel counter counts this walk's computations
                forall|s: int|
                    #[trigger] computed_g.contains(s) ==> 0 <= s < n && processed@.contains(
                        s as u64,
                    ) && reaches(nodes0, tslot, s) && !node_settled(nodes0, s),
                computed_g.finite(),
                self.calls_view() == calls0 + computed_g.len(),
                computed_g.len() <= n,
                // a processed node's value stays reachable while a consumer
                // still wants it
                forall|s: int|
                    0 <= s < n && #[trigger] processed@.contains(s as u64) ==> {
                        &&& reaches(nodes0, tslot, s)
                        &&& (comp_cache@.contains_key(s as u64) || node_settled(nodes0, s) || (
                        node_to_children@.contains_key(s as u64) && forall|i: int|
                            0 <= i < node_to_children@[s as u64]@.len()
                                ==> processed@.contains(
                                (#[trigger] node_to_children@[s as u64]@[i]).slot_view() as u64,
                            )))
                    },
                forall|s: int| #[trigger] popped.contains(s) ==> 0 <= s < n && processed@.contains(
                    s as u64,
                ),
                forall|s: int|
                    0 <= s < n && #[trigger] processed@.contains(s as u64) ==> sched_g.contains(s),
                forall|j: int|
                    0 <= j < open@.len() ==> {
                        let sl = (#[trigger] open@[j]).slot_view() as int;
                        &&& sl < n
                        &&& reaches(nodes0, tslot, sl)
                        &&& sched_g.contains(sl)
                        &&& (!node_settled(nodes0, sl) ==> !processed@.contains(sl as u64))
                        &&& (node_settled(nodes0, sl) || forall|jj: int|
                            0 <= jj < edge_parents(nodes0[sl].spec_edge()).len()
                                ==> processed@.contains(
                                (#[trigger] edge_parents(
                                    nodes0[sl].spec_edge(),
                                )[jj]).slot_view() as u64,
                            ))
                    },
                forall|j: int, k: int|
                    0 <= j < k < open@.len() && (#[trigger] open@[j]).slot_view() == (
                    #[trigger] open@[k]).slot_view() ==> node_settled(
                        nodes0,
                        open@[j].slot_view() as int,
                    ),
                forall|s: int|
                    0 <= s < n ==> ((#[trigger] scheduled@.contains(s as u64)) <==> sched_g.contains(
                        s,
                    )),
                forall|s: int| #[trigger] sched_g.contains(s) ==> 0 <= s < n && reaches(
                    nodes0,
                    tslot,
                    s,
                ),
                sched_g.finite(),
                sched_g.len() <= n,
                forall|s: int|
                    #[trigger] sched_g.contains(s) ==> popped.contains(s) || list_has_slot(
                        open@,
                        s,
                    ),
                forall|s: int|
                    reaches(nodes0, tslot, s) && node_settled(nodes0, s)
                        ==> #[trigger] popped.contains(s) || list_has_slot(open@, s),
                forall|s: int|
                    0 <= s < n && reaches(nodes0, tslot, s) && !node_settled(nodes0, s)
                        ==> #[trigger] sched_g.contains(s) || exists|j: int|
                        0 <= j < edge_parents(nodes0[s].spec_edge()).len() && !popped.contains(
                            (#[trigger] edge_parents(
                                nodes0[s].spec_edge(),
                            )[j]).slot_view() as int,
                        ),
                // the target is nobody's consumer, so its entry never leaves
                popped.contains(tslot) && !node_settled(nodes0, tslot)
                    ==> comp_cache@.contains_key(tslot as u64),
            decreases n - sched_g.len(), open@.len(),
        {
            let ghost prev_open = open@;
            let ghost prev_popped = popped;
            let node_key = match open.pop() {
                Some(k) => k,
                None => {
                    proof {
                        assert(false);
                    }
                    *target
                },
            };
            let ghost cur = node_key.slot_view() as int;
            proof {
                popped = popped.insert(cur);
                assert forall|s: int|
                    #[trigger] sched_g.contains(s) implies popped.contains(s) || list_has_slot(
                    open@,
                    s,
                ) by {
                    if !prev_popped.contains(s) && s != cur {
                        let j = choose|j: int|
                            0 <= j < prev_open.len() && (#[trigger] prev_open[j]).slot_view()
                                == s;
                        if j < prev_open.len() - 1 {
                            assert(open@[j].slot_view() == s);
                        } else {
                            assert(s == cur);
                        }
                    }
                }
                assert forall|s: int|
                    reaches(nodes0, tslot, s) && node_settled(nodes0, s) implies
                    #[trigger] popped.contains(s) || list_has_slot(open@, s) by {
                    if !prev_popped.contains(s) && s != cur {
                        let j = choose|j: int|
                            0 <= j < prev_open.len() && (#[trigger] prev_open[j]).slot_view()
                                == s;
                        if j < prev_open.len() - 1 {
                            assert(open@[j].slot_view() == s);
                        } else {
                            assert(s == cur);
                        }
                    }
                }
            }
            let node = match self.get_node(&node_key) {
                Some(nd) => nd,
                None => {
                    proof {
                        assert(false);
                    }
                    return Err(ComputationGraphError::NodeDoesNotExist(*target));
                },
            };
            let needs_compute = node.tensor().is_none();
            let cur64: u64 = node_key.slot() as u64;
            if needs_compute {
                proof {
                    assert(!node_settled(nodes0, cur));
                    assert(!prev_popped.contains(cur));
                }
                let edge_copy: Edge = *node.edge();
                let parents = edge_copy.parent_keys();
                let ghost pseq = edge_parents(nodes0[cur].spec_edge());
                proof {
                    assert(parents@ == pseq);
                    // every parent is processed and, not yet having all its
                    // consumers served, still reachable in cache or storage
                    assert forall|j: int| 0 <= j < pseq.len() implies {
                        let sl = (#[trigger] pseq[j]).slot_view();
                        &&& sl < self.nodes_seq().len()
                        &&& (comp_cache@.contains_key(sl as u64) || (self.nodes_seq()[
                            sl as int
                        ].spec_tensor() is Some && self.nodes_seq()[
                            sl as int
                        ].spec_tensor()->Some_0.valid()))
                    } by {
                        let sl = pseq[j].slot_view() as int;
                        assert(processed@.contains(sl as u64));
                        if !comp_cache@.contains_key(sl as u64) && !node_settled(nodes0, sl) {
                            assert(node_to_children@.contains_key(sl as u64));
                            assert(list_has_slot(node_to_children@[sl as u64]@, cur));
                            let i = choose|i: int|
                                0 <= i < node_to_children@[sl as u64]@.len() && (
                                #[trigger] node_to_children@[sl as u64]@[i]).slot_view() == cur;
                            assert(processed@.contains(cur as u64));
                            assert(false);
                        }
                    }
                }
                proof {
                    assert forall|v: u64| #[trigger] comp_cache@.contains_key(v) implies
                        comp_cache@[v].valid() by {
                        let sv = v as int;
                        assert(0 <= sv < n);
                        assert(sv as u64 == v);
                        assert(comp_cache@.contains_key(sv as u64));
                    }
                }
                let inputs = self.gather_inputs(&parents, &comp_cache);
                let out = edge_copy.compute_tensor(&inputs);
                proof {
                    let ins = Seq::new(inputs@.len(), |i: int| tview(inputs@[i]));
                    assert forall|j: int| 0 <= j < pseq.len() implies 0 <= (
                    #[trigger] pseq[j]).slot_view() < cur && den(
                        nodes0,
                        pseq[j].slot_view() as int,
                    ) is Some by {
                        assert(processed@.contains(pseq[j].slot_view() as u64));
                        let sl = pseq[j].slot_view() as int;
                        if !comp_cache@.contains_key(sl as u64) {
                            assert(node_settled(nodes0, sl) || processed@.contains(cur as u64));
                        }
                    }
                    lemma_den_list_build(nodes0, pseq, cur);
                    let tvs = den_list(nodes0, pseq, cur)->Some_0;
                    assert(ins =~= tvs) by {
                        assert forall|j: int| 0 <= j < pseq.len() implies ins[j] == tvs[j] by {
                            let sl = pseq[j].slot_view() as int;
                            if comp_cache@.contains_key(sl as u64) {
                                assert(den(nodes0, sl) == Some(tview(comp_cache@[sl as u64])));
                            } else {
                                assert(den(nodes0, sl) == Some(
                                    tview(self.nodes_seq()[sl].spec_tensor()->Some_0),
                                ));
                            }
                        }
                    }
                    assert(!(nodes0[cur].spec_edge() is Root));
                    assert(den(nodes0, cur) == edge_apply(nodes0[cur].spec_edge(), tvs));
                }
                match out {
                    Ok(t) => {
                        proof {
                            assert(den(nodes0, cur) == Some(tview(t)));
                        }
                        comp_cache.insert(cur64, t);
                        processed.insert(cur64);
                        proof {
                            assert(!computed_g.contains(cur));
                            computed_g = computed_g.insert(cur);
                            assert(computed_g.len() == computed_g.remove(cur).len() + 1) by {
                                assert(computed_g.remove(cur).insert(cur) =~= computed_g);
                            }
                            vstd::set_lib::lemma_int_range(0, n);
                            assert(computed_g.subset_of(vstd::set_lib::set_int_range(0, n)));
                            vstd::set_lib::lemma_len_subset(
                                computed_g,
                                vstd::set_lib::set_int_range(0, n),
                            );
                        }
                        self.kernel_calls = self.kernel_calls + 1;
                        // serve each parent's last consumer: once every child
                        // of a parent holds a transient entry, the parent's
                        // own entry has no reader left and is dropped
                        let numpar = parents.len();
                        for pi in 0..numpar
                            invariant
                                nodes_wf(nodes0),
                                n == nodes0.len() as int,
                                n <= usize::MAX,
                                0 <= tslot < n,
                                0 <= cur < n,
                                self.nodes_seq() == nodes0,
                                numpar == pseq.len(),
                                parents@ == pseq,
                                pseq == edge_parents(nodes0[cur].spec_edge()),
                                node_key.slot_view() as int == cur,
                                cur64 == cur as u64,
                                !node_settled(nodes0, cur),
                                children_map_ok(nodes0, tslot, node_to_children@),
                                comp_cache@.contains_key(cur64),
                                processed@.contains(cur64),
                                reaches(nodes0, tslot, cur),
                                popped.contains(tslot) && !node_settled(nodes0, tslot)
                                    ==> comp_cache@.contains_key(tslot as u64),
                                forall|s: int|
                                    0 <= s < n && #[trigger] comp_cache@.contains_key(s as u64)
                                        ==> {
                                        &&& comp_cache@[s as u64].valid()
                                        &&& den(nodes0, s) == Some(tview(comp_cache@[s as u64]))
                                        &&& !node_settled(nodes0, s)
                                        &&& processed@.contains(s as u64)
                                    },
                                forall|v: u64|
                                    #[trigger] comp_cache@.contains_key(v) ==> v < n as u64,
                                forall|s: int|
                                    0 <= s < n && #[trigger] processed@.contains(s as u64) ==> {
                                        &&& reaches(nodes0, tslot, s)
                                        &&& (comp_cache@.contains_key(s as u64) || node_settled(
                                            nodes0,
                                            s,
                                        ) || (node_to_children@.contains_key(s as u64)
                                            && forall|i: int|
                                            0 <= i < node_to_children@[s as u64]@.len()
                                                ==> processed@.contains(
                                                (#[trigger] node_to_children@[
                                                    s as u64
                                                ]@[i]).slot_view() as u64,
                                            )))
                                    },
                            decreases numpar - pi,
                        {
                            let pk64: u64 = parents[pi].slot() as u64;
                            let ghost psl = pseq[pi as int].slot_view() as int;
                            proof {
                                assert(psl < cur);
                                assert(pk64 == psl as u64);
                                assert(node_to_children@.contains_key(pk64)) by {
                                    assert(reaches(nodes0, tslot, cur));
                                    assert(list_has_slot(node_to_children@[pk64]@, cur));
                                }
                            }
                            let child_list = match node_to_children.get(&pk64) {
                                Some(l) => l,
                                None => {
                                    proof {
                                        assert(false);
                                    }
                                    unreached()
                                },
                            };
                            proof {
                                assert(node_to_children@[pk64] == *child_list);
                            }
                            let numc = child_list.len();
                            let mut all_cached = true;
                            for ci in 0..numc
                                invariant
                                    numc == child_list@.len(),
                                    all_cached <==> forall|i: int|
                                        0 <= i < ci ==> comp_cache@.contains_key(
                                            (#[trigger] child_list@[i]).slot_view() as u64,
                                        ),
                                decreases numc - ci,
                            {
                                if !comp_cache.contains_key(&(child_list[ci].slot() as u64)) {
                                    proof {
                                        assert(!comp_cache@.contains_key(
                                            child_list@[ci as int].slot_view() as u64,
                                        ));
                                    }
                                    all_cached = false;
                                }
                                proof {
                                    if all_cached {
                                        assert(comp_cache@.contains_key(
                                            child_list@[ci as int].slot_view() as u64,
                                        ));
                                    }
                                }
                            }
                            if all_cached {
                                proof {
                                    // every consumer of this parent holds its
                                    // entry, and entries belong to processed
                                    // nodes, so the parent's readers are done
                                    assert forall|i: int|
                                        0 <= i < node_to_children@[pk64]@.len() implies
                                        processed@.contains(
                                        (#[trigger] node_to_children@[
                                            pk64
                                        ]@[i]).slot_view() as u64,
                                    ) by {
                                        assert(comp_cache@.contains_key(
                                            (node_to_children@[pk64]@[i]).slot_view() as u64,
                                        ));
                                        let cv = (node_to_children@[pk64]@[i]).slot_view() as u64;
                                        assert(cv < n as u64);
                                        (node_to_children@[pk64]@[i]).lemma_slot_bound();
                                        let csl = (node_to_children@[pk64]@[i]).slot_view() as int;
                                        assert(0 <= csl < n);
                                        assert(csl as u64 == cv);
                                    }
                                    // the target feeds nothing, so its entry
                                    // is never the one dropped
                                    lemma_reaches_le(nodes0, tslot, cur);
                                    assert(psl < cur <= tslot);
                                    assert(pk64 != tslot as u64);
                                }
                                comp_cache.remove(&pk64);
                            }
                        }
                    },
                    Err(e) => {
                        proof {
                            assert(den(nodes0, cur) is None);
                            assert(reaches(nodes0, tslot, cur));
                            lemma_den_none_up(nodes0, tslot, cur);
                            assert(den(nodes0, tslot) is None);
                        }
                        return Err(e);
                    },
                }
            } else {
                processed.insert(cur64);
            }
            match node_to_children.get(&cur64) {
                None => {
                    proof {
                        assert forall|s: int|
                            0 <= s < n && reaches(nodes0, tslot, s) && !node_settled(nodes0, s)
                                implies #[trigger] sched_g.contains(s) || exists|j: int|
                            0 <= j < edge_parents(nodes0[s].spec_edge()).len()
                                && !popped.contains(
                                (#[trigger] edge_parents(
                                    nodes0[s].spec_edge(),
                                )[j]).slot_view() as int,
                            ) by {
                            if !sched_g.contains(s) {
                                let j = choose|j: int|
                                    0 <= j < edge_parents(nodes0[s].spec_edge()).len()
                                        && !prev_popped.contains(
                                        (#[trigger] edge_parents(
                                            nodes0[s].spec_edge(),
                                        )[j]).slot_view() as int,
                                    );
                                let p = edge_parents(nodes0[s].spec_edge())[j].slot_view() as int;
                                if p == cur {
                                    assert(node_to_children@.contains_key(cur64));
                                    assert(false);
                                }
                            }
                        }
                    }
                },
                Some(children_list) => {
                    let ghost entry_sched = sched_g;
                    let ghost entry_open = open@.len() as int;
                    let ghost snap = self.nodes_seq();
                    let ghost snap_calls = self.calls_view();
                    let numc = children_list.len();
                    for ci in 0..numc
                        invariant
                            self.nodes_seq() == snap,
                            self.calls_view() == snap_calls,
                            snap == nodes0,
                            entry_sched.finite(),
                            entry_sched.subset_of(sched_g),
                            sched_g.len() > entry_sched.len() || (sched_g == entry_sched
                                && open@.len() == entry_open),
                            nodes_wf(nodes0),
                            n == nodes0.len() as int,
                            n <= usize::MAX,
                            0 <= tslot < n,
                            0 <= cur < n,
                            numc == children_list@.len(),
                            cur64 == cur as u64,
                            child_list_ok(nodes0, tslot, cur64, children_list@),
                            node_to_children@.contains_key(cur64),
                            node_to_children@[cur64] == *children_list,
                            children_map_ok(nodes0, tslot, node_to_children@),
                            forall|s: int|
                                0 <= s < n && #[trigger] processed@.contains(s as u64)
                                    ==> reaches(nodes0, tslot, s) && sched_g.contains(s),
                            forall|s: int| #[trigger] popped.contains(s) ==> 0 <= s < n
                                && processed@.contains(s as u64),
                            popped.contains(cur),
                            forall|j: int|
                                0 <= j < open@.len() ==> {
                                    let sl = (#[trigger] open@[j]).slot_view() as int;
                                    &&& sl < n
                                    &&& reaches(nodes0, tslot, sl)
                                    &&& sched_g.contains(sl)
                                    &&& (!node_settled(nodes0, sl) ==> !processed@.contains(
                                        sl as u64,
                                    ))
                                    &&& (node_settled(nodes0, sl) || forall|jj: int|
                                        0 <= jj < edge_parents(nodes0[sl].spec_edge()).len()
                                            ==> processed@.contains(
                                            (#[trigger] edge_parents(
                                                nodes0[sl].spec_edge(),
                                            )[jj]).slot_view() as u64,
                                        ))
                                },
                            forall|j: int, k: int|
                                0 <= j < k < open@.len() && (#[trigger] open@[j]).slot_view() == (
                                #[trigger] open@[k]).slot_view() ==> node_settled(
                                    nodes0,
                                    open@[j].slot_view() as int,
                                ),
                            forall|s: int|
                                0 <= s < n ==> ((#[trigger] scheduled@.contains(s as u64))
                                    <==> sched_g.contains(s)),
                            forall|s: int| #[trigger] sched_g.contains(s) ==> 0 <= s < n
                                && reaches(nodes0, tslot, s),
                            sched_g.finite(),
                            sched_g.len() <= n,
                            forall|s: int|
                                #[trigger] sched_g.contains(s) ==> popped.contains(s)
                                    || list_has_slot(open@, s),
                            forall|s: int|
                                reaches(nodes0, tslot, s) && node_settled(nodes0, s)
                                    ==> #[trigger] popped.contains(s) || list_has_slot(
                                    open@,
                                    s,
                                ),
                            forall|i: int|
                                0 <= i < ci ==> {
                                    let x = (#[trigger] children_list@[i]).slot_view() as int;
                                    sched_g.contains(x) || exists|j: int|
                                        0 <= j < edge_parents(nodes0[x].spec_edge()).len()
                                            && !processed@.contains(
                                            (#[trigger] edge_parents(
                                                nodes0[x].spec_edge(),
                                            )[j]).slot_view() as u64,
                                        )
                                },
                            forall|s: int|
                                0 <= s < n && reaches(nodes0, tslot, s) && !node_settled(
                                    nodes0,
                                    s,
                                ) ==> #[trigger] sched_g.contains(s) || exists|j: int|
                                    0 <= j < edge_parents(nodes0[s].spec_edge()).len()
                                        && !prev_popped.contains(
                                        (#[trigger] edge_parents(
                                            nodes0[s].spec_edge(),
                                        )[j]).slot_view() as int,
                                    ),
                            popped == prev_popped.insert(cur),
                        decreases numc - ci,
                    {
                        let child = children_list[ci];
                        let ghost x = child.slot_view() as int;
                        proof {
                            assert(reaches(nodes0, tslot, x));
                            lemma_reaches_le(nodes0, tslot, x);
                        }
                        let child64: u64 = child.slot() as u64;
                        let ready = self.all_parents_processed(&child, &processed);
                        proof {
                            assert(self.nodes_seq()[x].spec_edge() == nodes0[x].spec_edge());
                            assert(edge_parents(self.nodes_seq()[x].spec_edge()) == edge_parents(
                                nodes0[x].spec_edge(),
                            ));
                        }
                        let already = scheduled.contains(&child64);
                        if ready && !already {
                            let ghost prev_o = open@;
                            open.push(child);
                            scheduled.insert(child64);
                            proof {
                                let ghost prev_sched = sched_g;
                                sched_g = sched_g.insert(x);
                                assert(!prev_sched.contains(x));
                                assert(sched_g.len() == prev_sched.len() + 1);
                                vstd::set_lib::lemma_int_range(0, n);
                                assert(sched_g.subset_of(vstd::set_lib::set_int_range(0, n)));
                                vstd::set_lib::lemma_len_subset(
                                    sched_g,
                                    vstd::set_lib::set_int_range(0, n),
                                );
                                assert(open@[open@.len() - 1].slot_view() as int == x);
                                assert forall|s: int|
                                    #[trigger] sched_g.contains(s) implies popped.contains(s)
                                    || list_has_slot(open@, s) by {
                                    if s != x && !popped.contains(s) {
                                        let j = choose|j: int|
                                            0 <= j < prev_o.len() && (#[trigger] prev_o[
                                                j
                                            ]).slot_view() == s;
                                        assert(open@[j].slot_view() == s);
                                    }
                                }
                                assert forall|s: int|
                                    reaches(nodes0, tslot, s) && node_settled(nodes0, s) implies
                                    #[trigger] popped.contains(s) || list_has_slot(open@, s) by {
                                    if !popped.contains(s) {
                                        let j = choose|j: int|
                                            0 <= j < prev_o.len() && (#[trigger] prev_o[
                                                j
                                            ]).slot_view() == s;
                                        assert(open@[j].slot_view() == s);
                                    }
                                }
                                assert forall|j: int, k: int|
                                    0 <= j < k < open@.len() && (#[trigger] open@[j]).slot_view()
                                        == (#[trigger] open@[k]).slot_view() implies node_settled(
                                    nodes0,
                                    open@[j].slot_view() as int,
                                ) by {
                                    if k == open@.len() - 1 {
                                        assert(open@[k].slot_view() as int == x);
                                        if open@[j].slot_view() as int == x {
                                            assert(sched_g.contains(x));
                                            assert(prev_sched.contains(x) || popped.contains(x)
                                                || node_settled(nodes0, x)) by {
                                                if !popped.contains(x) && !node_settled(
                                                    nodes0,
                                                    x,
                                                ) {
                                                    assert(prev_o[j].slot_view() as int == x);
                                                    assert(list_has_slot(prev_o, x));
                                                    assert(prev_sched.contains(x) || popped.contains(
                                                        x,
                                                    ) || list_has_slot(prev_o, x));
                                                }
                                            }
                                            if !node_settled(nodes0, x) {
                                                if popped.contains(x) {
                                                    assert(processed@.contains(x as u64));
                                                    assert(false);
                                                } else {
                                                    assert(prev_sched.contains(x) || list_has_slot(
                                                        prev_o,
                                                        x,
                                                    ));
                                                    if prev_sched.contains(x) {
                                                        assert(false);
                                                    } else {
                                                        let jj = choose|jj: int|
                                                            0 <= jj < prev_o.len() && (
                                                            #[trigger] prev_o[jj]).slot_view()
                                                                == x;
                                                        assert(prev_sched.contains(x));
                                                        assert(false);
                                                    }
                                                }
                                            }
                                        }
                                    }
                                }
                            }
                        } else {
                            proof {
                                if !ready {
                                    let full = edge_parents(nodes0[x].spec_edge());
                                    assert(!(forall|j: int|
                                        0 <= j < full.len() ==> processed@.contains(
                                            (#[trigger] full[j]).slot_view() as u64,
                                        )));
                                }
                            }
                        }
                    }
                    proof {
                        assert forall|s: int|
                            0 <= s < n && reaches(nodes0, tslot, s) && !node_settled(nodes0, s)
                                implies #[trigger] sched_g.contains(s) || exists|j: int|
                            0 <= j < edge_parents(nodes0[s].spec_edge()).len() && !popped.contains(
                                (#[trigger] edge_parents(
                                    nodes0[s].spec_edge(),
                                )[j]).slot_view() as int,
                            ) by {
                            if !sched_g.contains(s) {
                                let j = choose|j: int|
                                    0 <= j < edge_parents(nodes0[s].spec_edge()).len()
                                        && !prev_popped.contains(
                                        (#[trigger] edge_parents(
                                            nodes0[s].spec_edge(),
                                        )[j]).slot_view() as int,
                                    );
                                let p = edge_parents(nodes0[s].spec_edge())[j].slot_view() as int;
                                if p == cur {
                                    assert(list_has_slot(node_to_children@[cur64]@, s));
                                    let i = choose|i: int|
                                        0 <= i < children_list@.len() && (
                                        #[trigger] children_list@[i]).slot_view() == s;
                                    let jj = choose|jj: int|
                                        0 <= jj < edge_parents(nodes0[s].spec_edge()).len()
                                            && !processed@.contains(
                                            (#[trigger] edge_parents(
                                                nodes0[s].spec_edge(),
                                            )[jj]).slot_view() as u64,
                                        );
                                    assert(!popped.contains(
                                        edge_parents(nodes0[s].spec_edge())[jj].slot_view() as int,
                                    ));
                                }
                            }
                        }
                    }
                },
            }
        }
        // write the target's own result back into permanent storage; a
        // target that already held a tensor keeps it
        let tslot64: u64 = target.slot() as u64;
        proof {
            assert forall|s: int| #[trigger] sched_g.contains(s) implies popped.contains(s) by {
                if !popped.contains(s) {
                    assert(list_has_slot(open@, s));
                    assert(false);
                }
            }
            assert forall|s: int|
                reaches(nodes0, tslot, s) && node_settled(nodes0, s) implies
                #[trigger] popped.contains(s) by {
                if !popped.contains(s) {
                    assert(list_has_slot(open@, s));
                    assert(false);
                }
            }
            if !node_settled(nodes0, tslot) {
                assert(reaches(nodes0, tslot, tslot)) by {
                    reveal(reaches);
                }
                lemma_eval_complete(nodes0, tslot, popped, sched_g, tslot);
                assert(comp_cache@.contains_key(tslot as u64));
            }
        }
        proof {
            if node_settled(nodes0, tslot) {
                assert(computed_g =~= Set::<int>::empty()) by {
                    assert forall|s: int| !(#[trigger] computed_g.contains(s)) by {
                        if computed_g.contains(s) {
                            assert(reaches(nodes0, tslot, s));
                            assert(s == tslot) by {
                                reveal(reaches);
                            }
                            assert(!node_settled(nodes0, s));
                        }
                    }
                }
                assert(computed_g.len() == 0);
                assert(!comp_cache@.contains_key(tslot as u64));
            }
        }
        match comp_cache.remove(&tslot64) {
            Some(t) => {
                let node = match self.get_node(target) {
                    Some(nd) => nd,
                    None => {
                        proof {
                            assert(false);
                        }
                        unreached()
                    },
                };
                let edge_copy: Edge = *node.edge();
                let mut fresh = Node::create_node(edge_copy);
                fresh.set_tensor(t);
                let ghost fresh_node = fresh;
                let ghost prev_nodes = self.nodes_seq();
                let ok = self.nodes.set(target.raw(), fresh);
                proof {
                    assert(ok);
                    assert(self.nodes_seq() == prev_nodes.update(tslot, fresh_node));
                    lemma_wf_from_frame(nodes0, self.nodes_seq());
                    assert(den(nodes0, tslot) is Some);
                }
                Ok(())
            },
            None => {
                proof {
                    assert(node_settled(nodes0, tslot));
                    assert(den(nodes0, tslot) is Some);
                }
                Ok(())
            },
        }
    }

    /// Evaluates the target while keeping memory bounded by the live
    /// frontier: intermediates live in a transient cache and are evicted as
    /// soon as every consumer has read them; only the target's result is
    /// stored.
    pub fn non_populating_eval(&mut self, target: &CompGraphTensor) -> (r: Result<
        (),
        ComputationGraphError,
    >)
        requires
            old(self).wf(),
            old(self).calls_view() + old(self).nodes_seq().len() <= u64::MAX,
        ensures
            final(self).wf(),
            final(self).nodes_seq().len() == old(self).nodes_seq().len(),
            forall|i: int|
                0 <= i < old(self).nodes_seq().len() && i != target.slot_view()
                    ==> final(self).nodes_seq()[i] == old(self).nodes_seq()[i],
            forall|i: int|
                0 <= i < old(self).nodes_seq().len() ==> (#[trigger] final(self).nodes_seq()[
                    i
                ]).spec_edge() == old(self).nodes_seq()[i].spec_edge(),
            forall|i: int|
                0 <= i < old(self).nodes_seq().len() && old(self).nodes_seq()[
                    i
                ].spec_tensor() is Some ==> (#[trigger] final(self).nodes_seq()[i]).spec_tensor()
                    == old(self).nodes_seq()[i].spec_tensor(),
            target.slot_view() < old(self).nodes_seq().len() && old(self).nodes_seq()[
                target.slot_view() as int
            ].spec_tensor() is Some ==> final(self).nodes_seq() == old(self).nodes_seq()
                && final(self).calls_view() == old(self).calls_view(),
            r is Ok <==> (target.slot_view() < old(self).nodes_seq().len() && den(
                old(self).nodes_seq(),
                target.slot_view() as int,
            ) is Some),
            r is Ok ==> (final(self).nodes_seq()[target.slot_view() as int].spec_tensor()
                matches Some(t) && Some(tview(t)) == den(
                old(self).nodes_seq(),
                target.slot_view() as int,
            )),
            r is Err ==> final(self).nodes_seq() == old(self).nodes_seq(),
            r matches Err(e) ==> ((e matches ComputationGraphError::NodeDoesNotExist(k) && k
                == target.key() && target.slot_view() >= old(self).nodes_seq().len()) || (
            e is ComputationError && target.slot_view() < old(self).nodes_seq().len() && den(
                old(self).nodes_seq(),
                target.slot_view() as int,
            ) is None)),
    {
        self.non_populating_eval_node(target.node_key())
    }

    /// Walks a computed node's tensor in row-major order.
    pub fn iter(&self, tensor: &CompGraphTensor) -> (r: EngineTensorUnitIterator)
        requires
            self.wf(),
            tensor.slot_view() < self.nodes_seq().len(),
            self.nodes_seq()[tensor.slot_view() as int].spec_tensor() is Some,
            forall|i: int|
                0 <= i < self.nodes_seq()[
                    tensor.slot_view() as int
                ].spec_tensor()->Some_0.dims().len() ==> self.nodes_seq()[
                    tensor.slot_view() as int
                ].spec_tensor()->Some_0.dims()[i] >= 1,
        ensures
            r.wf(),
            Some(r.src()) == self.nodes_seq()[tensor.slot_view() as int].spec_tensor(),
            r.index() == 0,
    {
        let node = match self.get_node(tensor.node_key()) {
            Some(n) => n,
            None => {
                proof {
                    assert(false);
                }
                unreached()
            },
        };
        let t = match node.tensor() {
            Some(t) => t,
            None => {
                proof {
                    assert(false);
                }
                unreached()
            },
        };
        t.iter_units()
    }
}

/// The one step every operation constructor performs: a fresh uncomputed
/// node carrying the given edge, everything else untouched.
pub open spec fn graph_extended(g1: CompGraph, g2: CompGraph, r: CompGraphTensor, e: Edge) -> bool {
    &&& g2.wf()
    &&& g2.nodes_seq().len() == g1.nodes_seq().len() + 1
    &&& forall|i: int| 0 <= i < g1.nodes_seq().len() ==> g2.nodes_seq()[i] == g1.nodes_seq()[i]
    &&& g2.nodes_seq().last().spec_edge() == e
    &&& g2.nodes_seq().last().spec_tensor() is None
    &&& r.slot_view() == g1.nodes_seq().len()
    &&& g2.calls_view() == g1.calls_view()
}

/// Some member of the list addresses slot `s`.
pub open spec fn list_has_slot(cs: Seq<NodeKey>, s: int) -> bool {
    exists|j: int| 0 <= j < cs.len() && (#[trigger] cs[j]).slot_view() == s
}

/// Every member of a child list is an uncomputed node the walk finds, filed
/// under one of its own parents.
pub open spec fn child_list_ok(nodes: Seq<Node>, tslot: int, p: u64, cs: Seq<NodeKey>) -> bool {
    forall|j: int|
        0 <= j < cs.len() ==> {
            let c = (#[trigger] cs[j]).slot_view() as int;
            &&& reaches(nodes, tslot, c)
            &&& !node_settled(nodes, c)
            &&& exists|jj: int|
                0 <= jj < edge_parents(nodes[c].spec_edge()).len() && (#[trigger] edge_parents(
                    nodes[c].spec_edge(),
                )[jj]).slot_view() == p
        }
}

/// The open list holds exactly the computed sources the walk finds.
pub open spec fn open_list_ok(nodes: Seq<Node>, tslot: int, open: Seq<NodeKey>) -> bool {
    &&& forall|j: int|
        0 <= j < open.len() ==> reaches(nodes, tslot, (#[trigger] open[j]).slot_view() as int)
            && node_settled(nodes, open[j].slot_view() as int)
    &&& forall|s: int|
        #[trigger] reaches(nodes, tslot, s) && node_settled(nodes, s) ==> list_has_slot(open, s)
}

/// The children map files every uncomputed node the walk finds under each of
/// its parents, and nothing else.
pub open spec fn children_map_ok(nodes: Seq<Node>, tslot: int, cm: Map<u64, Vec<NodeKey>>) -> bool {
    &&& forall|p: u64| #[trigger] cm.contains_key(p) ==> child_list_ok(nodes, tslot, p, cm[p]@)
    &&& forall|s: int|
        #[trigger] reaches(nodes, tslot, s) && !node_settled(nodes, s) ==> forall|j: int|
            0 <= j < edge_parents(nodes[s].spec_edge()).len() ==> {
                let p = (#[trigger] edge_parents(nodes[s].spec_edge())[j]).slot_view() as u64;
                &&& cm.contains_key(p)
                &&& list_has_slot(cm[p]@, s)
            }
}

/// In a walk whose finished part is closed under parents, everything the
/// walk finds from a finished node is finished.
proof fn lemma_walk_complete(nodes: Seq<Node>, popped: Set<int>, y: int, x: int)
    requires
        forall|s: int| #[trigger] popped.contains(s) ==> 0 <= s < nodes.len(),
        forall|s: int|
            #[trigger] popped.contains(s) && !node_settled(nodes, s) ==> forall|j: int|
                0 <= j < edge_parents(nodes[s].spec_edge()).len() ==> popped.contains(
                    (#[trigger] edge_parents(nodes[s].spec_edge())[j]).slot_view() as int,
                ),
        popped.contains(y),
        reaches(nodes, y, x),
    ensures
        popped.contains(x),
    decreases y,
{
    reveal(reaches);
    if y == x {
    } else {
        let e = nodes[y].spec_edge();
        let j = choose|j: int|
            0 <= j < edge_parents(e).len() && (#[trigger] edge_parents(e)[j]).slot_view() < y
                && reaches(nodes, edge_parents(e)[j].slot_view() as int, x);
        let p = edge_parents(e)[j].slot_view() as int;
        assert(popped.contains(p));
        lemma_walk_complete(nodes, popped, p, x);
    }
}

/// The walk composes: what is found from a found node is found.
pub proof fn lemma_reaches_trans(nodes: Seq<Node>, a: int, b: int, c: int)
    requires
        reaches(nodes, a, b),
        reaches(nodes, b, c),
    ensures
        reaches(nodes, a, c),
    decreases a,
{
    reveal(reaches);
    if a == b {
    } else {
        let e = nodes[a].spec_edge();
        let j = choose|j: int|
            0 <= j < edge_parents(e).len() && (#[trigger] edge_parents(e)[j]).slot_view() < a
                && reaches(nodes, edge_parents(e)[j].slot_view() as int, b);
        lemma_reaches_trans(nodes, edge_parents(e)[j].slot_view() as int, b, c);
    }
}

/// Nodes that gained a tensor between two states of one graph.
pub open spec fn newly_settled(n1: Seq<Node>, n2: Seq<Node>) -> Set<int> {
    Set::new(
        |i: int|
            0 <= i < n1.len() && n1[i].spec_tensor() is None && n2[i].spec_tensor() is Some,
    )
}

/// What one evaluation may do to the stored nodes: keep the wiring and every
/// existing cache, and fill caches only on nodes its walk finds, each with
/// the node's denotation in the starting state.
pub open spec fn eval_frame(n1: Seq<Node>, n2: Seq<Node>, tslot: int) -> bool {
    &&& n2.len() == n1.len()
    &&& forall|i: int| 0 <= i < n1.len() ==> (#[trigger] n2[i]).spec_edge() == n1[i].spec_edge()
    &&& forall|i: int|
        0 <= i < n1.len() && n1[i].spec_tensor() is Some ==> (#[trigger] n2[i]).spec_tensor()
            == n1[i].spec_tensor()
    &&& forall|i: int|
        0 <= i < n1.len() && n1[i].spec_tensor() is None && (#[trigger] n2[
            i
        ]).spec_tensor() is Some ==> reaches(n1, tslot, i) && n2[i].spec_tensor()->Some_0.valid()
            && den(n1, i) == Some(tview(n2[i].spec_tensor()->Some_0))
}

/// A state that kept the wiring and whose every cache carries its node's
/// denotation is again well formed.
proof fn lemma_wf_from_frame(n1: Seq<Node>, n2: Seq<Node>)
    requires
        nodes_wf(n1),
        n2.len() == n1.len(),
        forall|i: int| 0 <= i < n1.len() ==> (#[trigger] n2[i]).spec_edge() == n1[i].spec_edge(),
        forall|i: int|
            0 <= i < n1.len() && n1[i].spec_tensor() is Some ==> (#[trigger] n2[i]).spec_tensor()
                == n1[i].spec_tensor(),
        forall|i: int|
            0 <= i < n2.len() && (#[trigger] n2[i]).spec_tensor() is Some ==> n2[
                i
            ].spec_tensor()->Some_0.valid() && den(n1, i) == Some(
                tview(n2[i].spec_tensor()->Some_0),
            ),
    ensures
        nodes_wf(n2),
{
    assert(same_core(n1, n2));
    assert forall|i: int| 0 <= i < n2.len() implies {
        &&& forall|j: int|
            0 <= j < edge_parents(n2[i].spec_edge()).len() ==> (#[trigger] edge_parents(
                n2[i].spec_edge(),
            )[j]).slot_view() < i
        &&& (n2[i].spec_edge() is Root ==> n2[i].spec_tensor() is Some)
        &&& (#[trigger] n2[i].spec_tensor() matches Some(t) ==> t.valid() && den(n2, i) == Some(
            tview(t),
        ))
    } by {
        lemma_den_frame(n1, n2, i);
    }
}

/// Once the evaluation's agenda is spent, every node its walk finds has been
/// handled: each computed source was handed out, and each uncomputed node
/// was scheduled once its parents were and so was handled too.
proof fn lemma_eval_complete(
    nodes0: Seq<Node>,
    tslot: int,
    popped: Set<int>,
    sched: Set<int>,
    x: int,
)
    requires
        nodes_wf(nodes0),
        forall|s: int|
            reaches(nodes0, tslot, s) && node_settled(nodes0, s) ==> #[trigger] popped.contains(
                s,
            ),
        forall|s: int|
            0 <= s < nodes0.len() && reaches(nodes0, tslot, s) && !node_settled(nodes0, s)
                ==> #[trigger] sched.contains(s) || exists|j: int|
                0 <= j < edge_parents(nodes0[s].spec_edge()).len() && !popped.contains(
                    (#[trigger] edge_parents(nodes0[s].spec_edge())[j]).slot_view() as int,
                ),
        forall|s: int| #[trigger] sched.contains(s) ==> popped.contains(s),
        reaches(nodes0, tslot, x),
        !node_settled(nodes0, x),
    ensures
        popped.contains(x),
    decreases x,
{
    lemma_reaches_le(nodes0, tslot, x);
    assert(0 <= x < nodes0.len()) by {
        reveal(reaches);
    }
    assert forall|j: int| 0 <= j < edge_parents(nodes0[x].spec_edge()).len() implies popped.contains(
        (#[trigger] edge_parents(nodes0[x].spec_edge())[j]).slot_view() as int,
    ) by {
        let p = edge_parents(nodes0[x].spec_edge())[j].slot_view() as int;
        assert(p < x);
        assert(reaches(nodes0, x, p)) by {
            reveal(reaches);
            assert(reaches(nodes0, p, p));
        }
        lemma_reaches_trans(nodes0, tslot, x, p);
        if !node_settled(nodes0, p) {
            lemma_eval_complete(nodes0, tslot, popped, sched, p);
        }
    }
    assert(sched.contains(x));
}

/// Both evaluation strategies pin the tensor they store for the target to
/// the target's denotation in the starting graph; any two results obtained
/// for one target of one graph therefore show the same shape and the same
/// elements, whichever strategy produced each.
pub proof fn law_eval_modes_agree(nodes: Seq<Node>, tslot: int, t1: Array, t2: Array)
    requires
        Some(tview(t1)) == den(nodes, tslot),
        Some(tview(t2)) == den(nodes, tslot),
    ensures
        t1.dims() == t2.dims(),
        t1.contents() == t2.contents(),
{
    assert(tview(t1) == tview(t2));
    assert(tview(t1).dims == t1.dims());
    assert(tview(t2).elems == t2.contents());
}

/// Clearing a derived node's cache moves no denotation, so a later
/// evaluation stores the very value the node held before.
pub proof fn law_recompute_after_clear(n1: Seq<Node>, n2: Seq<Node>, i: int)
    requires
        same_core(n1, n2),
        n1[i].spec_tensor() is Some,
        0 <= i < n1.len(),
        nodes_wf(n1),
    ensures
        den(n2, i) == Some(tview(n1[i].spec_tensor()->Some_0)),
{
    lemma_den_frame(n1, n2, i);
}

} // verus!
