use vstd::prelude::*;

use crate::comp_graph::ComputationGraphError;
use crate::edge::Edge;
use crate::tensor::Array;

verus! {

/// One graph vertex: an optional cached tensor and the edge that says how
/// the tensor arises. A node is computed exactly when its tensor is present.
#[derive(Debug)]
pub struct Node {
    tensor: Option<Array>,
    edge: Edge,
}

impl Node {
    pub closed spec fn spec_tensor(self) -> Option<Array> {
        self.tensor
    }

    pub closed spec fn spec_edge(self) -> Edge {
        self.edge
    }

    /// A source vertex: its tensor is supplied directly and is always
    /// present.
    pub fn create_root(tensor: Array) -> (r: Node)
        ensures
            r.spec_tensor() == Some(tensor),
            r.spec_edge() == Edge::Root,
    {
        Node { tensor: Some(tensor), edge: Edge::Root }
    }

    /// A derived vertex: records how to compute its tensor, computes
    /// nothing.
    pub fn create_node(edge: Edge) -> (r: Node)
        ensures
            r.spec_tensor() is None,
            r.spec_edge() == edge,
    {
        Node { tensor: None, edge }
    }

    pub fn tensor(&self) -> (r: Option<&Array>)
        ensures
            r is Some <==> self.spec_tensor() is Some,
            r matches Some(t) ==> Some(*t) == self.spec_tensor(),
    {
        self.tensor.as_ref()
    }

    pub fn set_tensor(&mut self, tensor: Array)
        ensures
            final(self).spec_tensor() == Some(tensor),
            final(self).spec_edge() == old(self).spec_edge(),
    {
        self.tensor = Some(tensor)
    }

    /// Drops the cached tensor; a root's tensor may never be dropped.
    pub fn clear_tensor(&mut self) -> (r: Result<(), ComputationGraphError>)
        ensures
            r is Ok <==> !(old(self).spec_edge() is Root),
            r is Ok ==> final(self).spec_tensor() is None && final(self).spec_edge() == old(
                self,
            ).spec_edge(),
            r is Err ==> *final(self) == *old(self),
            r matches Err(e) ==> e == ComputationGraphError::CannotClearRoot(),
    {
        if self.is_root() {
            return Err(ComputationGraphError::CannotClearRoot());
        }
        self.tensor = None;
        Ok(())
    }

    pub fn edge(&self) -> (r: &Edge)
        ensures
            *r == self.spec_edge(),
    {
        &self.edge
    }

    pub fn is_root(&self) -> (r: bool)
        ensures
            r <==> self.spec_edge() is Root,
    {
        self.edge().is_root()
    }
}

} // verus!
