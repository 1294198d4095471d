use vstd::prelude::*;

use crate::coords::seq_prod;
use crate::shape::Shape;
use crate::vararray::Unit;

verus! {

/// A dimension list with one unknown dimension, to be inferred from a total
/// element count: the unknown sits just before `inferred_pos` in `dims`.
#[derive(Debug)]
pub struct InferredShape {
    inferred_pos: usize,
    dims: Vec<Unit>,
}

impl InferredShape {
    pub closed spec fn pos_view(self) -> nat {
        self.inferred_pos as nat
    }

    pub closed spec fn dims_view(self) -> Seq<Unit> {
        self.dims@
    }

    pub fn new(inferred_pos: usize, dims: Vec<Unit>) -> (r: InferredShape)
        ensures
            r.pos_view() == inferred_pos,
            r.dims_view() == dims@,
    {
        InferredShape { inferred_pos, dims }
    }

    /// Completes the shape for a buffer of `length` elements: the missing
    /// dimension is the length divided by the known dimensions' product.
    pub fn infer(&self, length: usize) -> (r: Shape)
        requires
            self.pos_view() <= self.dims_view().len(),
            seq_prod(self.dims_view()) >= 1,
            forall|i: int|
                0 <= i <= self.dims_view().len() ==> seq_prod(
                    #[trigger] self.dims_view().subrange(i, self.dims_view().len() as int),
                ) <= usize::MAX,
        ensures
            r@ == self.dims_view().subrange(0, self.pos_view() as int).push(
                ((length as int) / (seq_prod(self.dims_view()) as int)) as usize,
            ) + self.dims_view().subrange(self.pos_view() as int, self.dims_view().len() as int),
    {
        let known = Shape::from_slice(self.dims.as_slice());
        let inferred = length / known.elements();
        let n = self.dims.len();
        let mut buf: Vec<Unit> = Vec::new();
        for i in 0..self.inferred_pos
            invariant
                self.inferred_pos <= n,
                n == self.dims_view().len(),
                buf@.len() == i,
                forall|j: int| 0 <= j < i ==> buf@[j] == self.dims_view()[j],
        {
            buf.push(self.dims[i]);
        }
        buf.push(inferred);
        let base = self.inferred_pos;
        for i in base..n
            invariant
                base <= n,
                n == self.dims_view().len(),
                buf@.len() == i + 1,
                forall|j: int| 0 <= j < base ==> buf@[j] == self.dims_view()[j],
                buf@[base as int] == inferred,
                forall|j: int| base <= j < i ==> buf@[j + 1] == self.dims_view()[j],
                inferred == (length as int) / (seq_prod(self.dims_view()) as int),
        {
            buf.push(self.dims[i]);
        }
        let r = Shape::from_slice(buf.as_slice());
        proof {
            assert(r@ =~= self.dims_view().subrange(0, self.pos_view() as int).push(
                ((length as int) / (seq_prod(self.dims_view()) as int)) as usize,
            ) + self.dims_view().subrange(self.pos_view() as int, self.dims_view().len() as int));
        }
        r
    }
}

} // verus!
