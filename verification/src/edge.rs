use vstd::prelude::*;

use crate::arena::NodeKey;
use crate::comp_graph::ComputationGraphError;
use crate::coords::seq_prod;
use crate::engine::{wrap_abs, wrap_div, wrap_neg, Basic};
use crate::tensor::Array;
use crate::vararray::Unit;

verus! {

/// How a node's tensor arises: a root holds one directly; every other
/// variant names its parent handle(s), with any embedded scalar, and is
/// resolved by the matching elementwise kernel.
#[derive(Clone, Copy, Debug)]
pub enum Edge {
    Root,
    Abs(NodeKey),
    Neg(NodeKey),
    AddScalar(i64, NodeKey),
    SubScalarLH(i64, NodeKey),
    SubScalarRH(NodeKey, i64),
    MulScalar(i64, NodeKey),
    DivScalarLH(i64, NodeKey),
    DivScalarRH(NodeKey, i64),
    Add(NodeKey, NodeKey),
    Sub(NodeKey, NodeKey),
    Mul(NodeKey, NodeKey),
    Div(NodeKey, NodeKey),
}

/// A tensor reduced to what its callers can observe: its shape and its
/// elements in row-major order.
pub struct TensorView {
    pub dims: Seq<Unit>,
    pub elems: Seq<i64>,
}

/// The observable part of a concrete tensor.
pub open spec fn tview(a: Array) -> TensorView {
    TensorView { dims: a.dims(), elems: a.contents() }
}

/// The edge's parent handles, in kernel-argument order.
pub open spec fn edge_parents(e: Edge) -> Seq<NodeKey> {
    match e {
        Edge::Root => seq![],
        Edge::Abs(a) => seq![a],
        Edge::Neg(a) => seq![a],
        Edge::AddScalar(_, a) => seq![a],
        Edge::SubScalarLH(_, a) => seq![a],
        Edge::SubScalarRH(a, _) => seq![a],
        Edge::MulScalar(_, a) => seq![a],
        Edge::DivScalarLH(_, a) => seq![a],
        Edge::DivScalarRH(a, _) => seq![a],
        Edge::Add(a, b) => seq![a, b],
        Edge::Sub(a, b) => seq![a, b],
        Edge::Mul(a, b) => seq![a, b],
        Edge::Div(a, b) => seq![a, b],
    }
}

/// What the edge's kernel returns on the given resolved parents: the result
/// view, or nothing where the kernel reports an error (a shape mismatch or a
/// zero divisor). A root resolves to nothing: it computes nothing.
pub open spec fn edge_apply(e: Edge, ins: Seq<TensorView>) -> Option<TensorView> {
    match e {
        Edge::Root => None,
        Edge::Abs(_) => Some(
            TensorView {
                dims: ins[0].dims,
                elems: Seq::new(ins[0].elems.len(), |k: int| wrap_abs(ins[0].elems[k])),
            },
        ),
        Edge::Neg(_) => Some(
            TensorView {
                dims: ins[0].dims,
                elems: Seq::new(ins[0].elems.len(), |k: int| wrap_neg(ins[0].elems[k])),
            },
        ),
        Edge::AddScalar(s, _) => Some(
            TensorView {
                dims: ins[0].dims,
                elems: Seq::new(ins[0].elems.len(), |k: int| s.wrapping_add(ins[0].elems[k])),
            },
        ),
        Edge::SubScalarLH(s, _) => Some(
            TensorView {
                dims: ins[0].dims,
                elems: Seq::new(ins[0].elems.len(), |k: int| s.wrapping_sub(ins[0].elems[k])),
            },
        ),
        Edge::SubScalarRH(_, s) => Some(
            TensorView {
                dims: ins[0].dims,
                elems: Seq::new(ins[0].elems.len(), |k: int| ins[0].elems[k].wrapping_sub(s)),
            },
        ),
        Edge::MulScalar(s, _) => Some(
            TensorView {
                dims: ins[0].dims,
                elems: Seq::new(ins[0].elems.len(), |k: int| s.wrapping_mul(ins[0].elems[k])),
            },
        ),
        Edge::DivScalarLH(s, _) => if forall|k: int|
            0 <= k < ins[0].elems.len() ==> ins[0].elems[k] != 0 {
            Some(
                TensorView {
                    dims: ins[0].dims,
                    elems: Seq::new(ins[0].elems.len(), |k: int| wrap_div(s, ins[0].elems[k])),
                },
            )
        } else {
            None
        },
        Edge::DivScalarRH(_, s) => if s != 0 {
            Some(
                TensorView {
                    dims: ins[0].dims,
                    elems: Seq::new(ins[0].elems.len(), |k: int| wrap_div(ins[0].elems[k], s)),
                },
            )
        } else {
            None
        },
        Edge::Add(_, _) => if ins[0].dims == ins[1].dims {
            Some(
                TensorView {
                    dims: ins[0].dims,
                    elems: Seq::new(
                        ins[0].elems.len(),
                        |k: int| ins[0].elems[k].wrapping_add(ins[1].elems[k]),
                    ),
                },
            )
        } else {
            None
        },
        Edge::Sub(_, _) => if ins[0].dims == ins[1].dims {
            Some(
                TensorView {
                    dims: ins[0].dims,
                    elems: Seq::new(
                        ins[0].elems.len(),
                        |k: int| ins[0].elems[k].wrapping_sub(ins[1].elems[k]),
                    ),
                },
            )
        } else {
            None
        },
        Edge::Mul(_, _) => if ins[0].dims == ins[1].dims {
            Some(
                TensorView {
                    dims: ins[0].dims,
                    elems: Seq::new(
                        ins[0].elems.len(),
                        |k: int| ins[0].elems[k].wrapping_mul(ins[1].elems[k]),
                    ),
                },
            )
        } else {
            None
        },
        Edge::Div(_, _) => if ins[0].dims == ins[1].dims && forall|k: int|
            0 <= k < ins[1].elems.len() ==> ins[1].elems[k] != 0 {
            Some(
                TensorView {
                    dims: ins[0].dims,
                    elems: Seq::new(
                        ins[0].elems.len(),
                        |k: int| wrap_div(ins[0].elems[k], ins[1].elems[k]),
                    ),
                },
            )
        } else {
            None
        },
    }
}

impl Edge {
    pub fn is_root(&self) -> (r: bool)
        ensures
            r <==> *self is Root,
    {
        match self {
            Edge::Root => true,
            _ => false,
        }
    }

    /// The edge's 0, 1 or 2 parent handles, in kernel-argument order.
    pub fn nodes(&self) -> (r: EdgeNodesIterator)
        ensures
            r.edge_view() == *self,
            r.index() == 0,
    {
        EdgeNodesIterator::new(self)
    }

    /// The parent handles as a list.
    pub fn parent_keys(&self) -> (r: Vec<NodeKey>)
        ensures
            r@ == edge_parents(*self),
    {
        let mut out: Vec<NodeKey> = Vec::new();
        match self {
            Edge::Root => {
            },
            Edge::Abs(a) => out.push(*a),
            Edge::Neg(a) => out.push(*a),
            Edge::AddScalar(_, a) => out.push(*a),
            Edge::SubScalarLH(_, a) => out.push(*a),
            Edge::SubScalarRH(a, _) => out.push(*a),
            Edge::MulScalar(_, a) => out.push(*a),
            Edge::DivScalarLH(_, a) => out.push(*a),
            Edge::DivScalarRH(a, _) => out.push(*a),
            Edge::Add(a, b) => {
                out.push(*a);
                out.push(*b);
            },
            Edge::Sub(a, b) => {
                out.push(*a);
                out.push(*b);
            },
            Edge::Mul(a, b) => {
                out.push(*a);
                out.push(*b);
            },
            Edge::Div(a, b) => {
                out.push(*a);
                out.push(*b);
            },
        }
        proof {
            assert(out@ =~= edge_parents(*self));
        }
        out
    }

    /// Runs the edge's kernel on the resolved parent tensors, handed over in
    /// kernel-argument order. A root computes nothing; a kernel error is
    /// passed through.
    pub fn compute_tensor(&self, inputs: &Vec<Array>) -> (r: Result<
        Array,
        ComputationGraphError,
    >)
        requires
            inputs@.len() == edge_parents(*self).len(),
            forall|i: int| 0 <= i < inputs@.len() ==> (#[trigger] inputs@[i]).valid(),
        ensures
            *self is Root ==> (r matches Err(e) && e == ComputationGraphError::RootNodeNotComputed()),
            !(*self is Root) ==> match edge_apply(
                *self,
                Seq::new(inputs@.len(), |i: int| tview(inputs@[i])),
            ) {
                Some(tv) => (r matches Ok(t) && t.valid() && tview(t) == tv),
                None => (r matches Err(e) && e is ComputationError),
            },
    {
        let ghost ins = Seq::new(inputs@.len(), |i: int| tview(inputs@[i]));
        let out: Result<Array, crate::engine::EngineError> = match self {
            Edge::Root => {
                return Err(ComputationGraphError::RootNodeNotComputed());
            },
            Edge::Abs(_) => Basic::abs(&inputs[0]),
            Edge::Neg(_) => Basic::neg(&inputs[0]),
            Edge::AddScalar(s, _) => Basic::add_scalar(*s, &inputs[0]),
            Edge::SubScalarLH(s, _) => Basic::sub_scalar_lh(*s, &inputs[0]),
            Edge::SubScalarRH(_, s) => Basic::sub_scalar_rh(&inputs[0], *s),
            Edge::MulScalar(s, _) => Basic::mul_scalar(*s, &inputs[0]),
            Edge::DivScalarLH(s, _) => Basic::div_scalar_lh(*s, &inputs[0]),
            Edge::DivScalarRH(_, s) => Basic::div_scalar_rh(&inputs[0], *s),
            Edge::Add(_, _) => Basic::add(&inputs[0], &inputs[1]),
            Edge::Sub(_, _) => Basic::sub(&inputs[0], &inputs[1]),
            Edge::Mul(_, _) => Basic::mul(&inputs[0], &inputs[1]),
            Edge::Div(_, _) => Basic::div(&inputs[0], &inputs[1]),
        };
        proof {
            assert(ins[0] == tview(inputs@[0]));
            if edge_parents(*self).len() == 2 {
                assert(ins[1] == tview(inputs@[1]));
            }
            match &out {
                Ok(t) => {
                    assert(t.contents().len() == seq_prod(t.dims()));
                    match edge_apply(*self, ins) {
                        Some(tv) => {
                            assert(tview(*t).elems =~= tv.elems);
                        },
                        None => {
                            assert(false);
                        },
                    }
                },
                Err(_) => {
                    assert(edge_apply(*self, ins) is None);
                },
            }
        }
        match out {
            Ok(t) => Ok(t),
            Err(e) => Err(ComputationGraphError::ComputationError(e)),
        }
    }
}

/// Walks an edge's parent handles in kernel-argument order.
pub struct EdgeNodesIterator<'a> {
    edge: &'a Edge,
    pos: usize,
}

impl<'a> EdgeNodesIterator<'a> {
    pub closed spec fn edge_view(&self) -> Edge {
        *self.edge
    }

    pub closed spec fn index(&self) -> nat {
        self.pos as nat
    }

    pub fn new(edge: &'a Edge) -> (r: EdgeNodesIterator<'a>)
        ensures
            r.edge_view() == *edge,
            r.index() == 0,
    {
        EdgeNodesIterator { edge, pos: 0 }
    }

    pub fn next(&mut self) -> (r: Option<NodeKey>)
        ensures
            final(self).edge_view() == old(self).edge_view(),
            old(self).index() < edge_parents(old(self).edge_view()).len() ==> r == Some(
                edge_parents(old(self).edge_view())[old(self).index() as int],
            ) && final(self).index() == old(self).index() + 1,
            old(self).index() >= edge_parents(old(self).edge_view()).len() ==> r is None
                && final(self).index() == old(self).index(),
    {
        let out: Option<NodeKey> = match self.edge {
            Edge::Root => None,
            Edge::Abs(a_key)
            | Edge::Neg(a_key)
            | Edge::AddScalar(_, a_key)
            | Edge::SubScalarLH(_, a_key)
            | Edge::SubScalarRH(a_key, _)
            | Edge::MulScalar(_, a_key)
            | Edge::DivScalarLH(_, a_key)
            | Edge::DivScalarRH(a_key, _) => {
                if self.pos == 0 {
                    Some(*a_key)
                } else {
                    None
                }
            },
            Edge::Add(a_key, b_key)
            | Edge::Sub(a_key, b_key)
            | Edge::Mul(a_key, b_key)
            | Edge::Div(a_key, b_key) => {
                if self.pos == 0 {
                    Some(*a_key)
                } else if self.pos == 1 {
                    Some(*b_key)
                } else {
                    None
                }
            },
        };
        if out.is_some() {
            self.pos = self.pos + 1;
        }
        out
    }
}

} // verus!
