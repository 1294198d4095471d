use vstd::prelude::*;

use crate::coords::{lemma_prod_first, seq_prod};
use crate::position::Position;
use crate::vararray::{Unit, VarArray};

verus! {

/// Ordered list of dimension sizes. Viewed as the sequence of sizes.
#[derive(Debug)]
pub struct Shape(VarArray);

impl View for Shape {
    type V = Seq<Unit>;

    closed spec fn view(&self) -> Seq<Unit> {
        self.0@
    }
}

impl Shape {
    pub fn new(data: VarArray) -> (r: Shape)
        ensures
            r@ == data@,
    {
        Shape(data)
    }

    pub fn from_slice(dims: &[Unit]) -> (r: Shape)
        ensures
            r@ == dims@,
    {
        Shape(VarArray::from_slice(dims))
    }

    pub fn len(&self) -> (n: usize)
        ensures
            n == self@.len(),
    {
        self.0.len()
    }

    pub fn get(&self, index: usize) -> (r: Result<Unit, crate::vararray::VarArrayError>)
        ensures
            r is Ok <==> index < self@.len(),
            r matches Ok(v) ==> v == self@[index as int],
    {
        self.0.get(index)
    }

    pub fn as_slice(&self) -> (r: &[Unit])
        ensures
            r@ == self@,
    {
        self.0.as_slice()
    }

    pub fn iter(&self) -> (r: crate::vararray::Iter)
        ensures
            r.entries() == self@,
            r.index() == 0,
    {
        self.0.iter()
    }

    pub fn vararray(&self) -> (r: &VarArray)
        ensures
            r@ == self@,
    {
        &self.0
    }

    /// Number of coordinates the shape admits: the product of its sizes.
    pub fn elements(&self) -> (n: usize)
        requires
            forall|i: int|
                0 <= i <= self@.len() ==> seq_prod(
                    #[trigger] self@.subrange(i, self@.len() as int),
                ) <= usize::MAX,
        ensures
            n == seq_prod(self@),
    {
        let dims = self.0.as_slice();
        let ghost s = self@;
        let n = dims.len();
        let mut acc: usize = 1;
        let mut i: usize = n;
        proof {
            assert(s.subrange(n as int, n as int) =~= Seq::<Unit>::empty());
        }
        while i > 0
            invariant
                i <= n,
                n == s.len(),
                dims@ == s,
                acc == seq_prod(s.subrange(i as int, n as int)),
                forall|j: int|
                    0 <= j <= s.len() ==> seq_prod(
                        #[trigger] s.subrange(j, n as int),
                    ) <= usize::MAX,
            decreases i,
        {
            let idx = i - 1;
            proof {
                lemma_prod_first(s.subrange(idx as int, n as int));
                assert(s.subrange(idx as int, n as int).drop_first() =~= s.subrange(
                    i as int,
                    n as int,
                ));
                assert(s.subrange(idx as int, n as int).first() == s[idx as int]);
            }
            acc = dims[idx] * acc;
            i = idx;
        }
        proof {
            assert(s.subrange(0, s.len() as int) =~= s);
        }
        acc
    }

    /// The all-zero coordinate: first in row-major order.
    pub fn first(&self) -> (r: Position)
        ensures
            r@.len() == self@.len(),
            forall|i: int| 0 <= i < r@.len() ==> r@[i] == 0,
    {
        let n = self.0.len();
        let mut buf: Vec<Unit> = Vec::new();
        for i in 0..n
            invariant
                buf@.len() == i,
                forall|j: int| 0 <= j < i ==> buf@[j] == 0,
        {
            buf.push(0);
        }
        Position::new(VarArray::from_slice(buf.as_slice()))
    }

    /// The all-greatest coordinate: last in row-major order. Every dimension
    /// must be occupied for such a coordinate to exist.
    pub fn last(&self) -> (r: Position)
        requires
            forall|i: int| 0 <= i < self@.len() ==> self@[i] >= 1,
        ensures
            r@.len() == self@.len(),
            forall|i: int| 0 <= i < r@.len() ==> r@[i] == self@[i] - 1,
    {
        let dims = self.0.as_slice();
        let mut buf: Vec<Unit> = Vec::new();
        for i in 0..dims.len()
            invariant
                dims@ == self@,
                buf@.len() == i,
                forall|j: int| 0 <= j < i ==> buf@[j] == self@[j] - 1,
                forall|j: int| 0 <= j < self@.len() ==> self@[j] >= 1,
        {
            buf.push(dims[i] - 1);
        }
        Position::new(VarArray::from_slice(buf.as_slice()))
    }
}

impl Clone for Shape {
    fn clone(&self) -> (res: Shape)
        ensures
            res@ == self@,
    {
        Shape(self.0.clone())
    }
}

impl PartialEq for Shape {
    fn eq(&self, other: &Shape) -> (r: bool) {
        self.0 == other.0
    }
}

impl vstd::std_specs::cmp::PartialEqSpecImpl for Shape {
    open spec fn obeys_eq_spec() -> bool {
        true
    }

    open spec fn eq_spec(&self, other: &Shape) -> bool {
        self@ == other@
    }
}

impl Eq for Shape {
}

} // verus!
