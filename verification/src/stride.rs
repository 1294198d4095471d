use vstd::prelude::*;

use crate::coords::{lemma_prod_first, seq_prod};
use crate::shape::Shape;
use crate::vararray::{Unit, VarArray};

verus! {

/// Per-dimension element step of a strided view. Viewed as the sequence of
/// steps.
#[derive(Debug)]
pub struct Stride(VarArray);

impl View for Stride {
    type V = Seq<Unit>;

    closed spec fn view(&self) -> Seq<Unit> {
        self.0@
    }
}

impl Stride {
    pub fn new(data: VarArray) -> (r: Stride)
        ensures
            r@ == data@,
    {
        Stride(data)
    }

    pub fn from_slice(steps: &[Unit]) -> (r: Stride)
        ensures
            r@ == steps@,
    {
        Stride(VarArray::from_slice(steps))
    }

    pub fn len(&self) -> (n: usize)
        ensures
            n == self@.len(),
    {
        self.0.len()
    }

    pub fn get(&self, index: usize) -> (r: Result<Unit, crate::vararray::VarArrayError>)
        ensures
            r is Ok <==> index < self@.len(),
            r matches Ok(v) ==> v == self@[index as int],
    {
        self.0.get(index)
    }

    pub fn as_slice(&self) -> (r: &[Unit])
        ensures
            r@ == self@,
    {
        self.0.as_slice()
    }

    pub fn iter(&self) -> (r: crate::vararray::Iter)
        ensures
            r.entries() == self@,
            r.index() == 0,
    {
        self.0.iter()
    }

    /// Row-major strides for the given shape: each dimension steps by the
    /// number of elements the dimensions to its right span, the rightmost by
    /// one.
    pub fn default_from_shape(shape: &Shape) -> (r: Stride)
        requires
            forall|i: int|
                0 <= i <= shape@.len() ==> seq_prod(
                    shape@.subrange(i, shape@.len() as int),
                ) <= usize::MAX,
        ensures
            r@.len() == shape@.len(),
            forall|i: int|
                0 <= i < shape@.len() ==> r@[i] == seq_prod(
                    shape@.subrange(i + 1, shape@.len() as int),
                ),
    {
        let ghost dims = shape@;
        let n = shape.len();
        let ds = shape.as_slice();
        let mut buf: Vec<Unit> = Vec::new();
        for k in 0..n
            invariant
                buf@.len() == k,
                forall|j: int| 0 <= j < k ==> buf@[j] == 0,
        {
            buf.push(0);
        }
        let mut next: usize = 1;
        let mut i: usize = n;
        proof {
            assert(dims.subrange(n as int, n as int) =~= Seq::<Unit>::empty());
        }
        while i > 0
            invariant
                i <= n,
                n == dims.len(),
                ds@ == dims,
                buf@.len() == n,
                next == seq_prod(dims.subrange(i as int, n as int)),
                forall|j: int|
                    i <= j < n ==> buf@[j] == seq_prod(dims.subrange(j + 1, n as int)),
                forall|j: int|
                    0 <= j <= dims.len() ==> seq_prod(dims.subrange(j, n as int)) <= usize::MAX,
            decreases i,
        {
            let idx = i - 1;
            buf.set(idx, next);
            proof {
                lemma_prod_first(dims.subrange(idx as int, n as int));
                assert(dims.subrange(idx as int, n as int).drop_first() =~= dims.subrange(
                    i as int,
                    n as int,
                ));
                assert(dims.subrange(idx as int, n as int).first() == dims[idx as int]);
            }
            next = ds[idx] * next;
            i = idx;
        }
        let r = Stride(VarArray::from_slice(buf.as_slice()));
        proof {
            assert(r@ =~= buf@);
        }
        r
    }
}

impl Clone for Stride {
    fn clone(&self) -> (res: Stride)
        ensures
            res@ == self@,
    {
        Stride(self.0.clone())
    }
}

impl PartialEq for Stride {
    fn eq(&self, other: &Stride) -> (r: bool) {
        self.0 == other.0
    }
}

impl vstd::std_specs::cmp::PartialEqSpecImpl for Stride {
    open spec fn obeys_eq_spec() -> bool {
        true
    }

    open spec fn eq_spec(&self, other: &Stride) -> bool {
        self@ == other@
    }
}

impl Eq for Stride {
}

} // verus!
