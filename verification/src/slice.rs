use vstd::prelude::*;

use crate::coords::{
    coords_in_bounds, lemma_rank_bound, lemma_rank_injective, rank_of, seq_prod,
    shifted, MAX_ELEMS,
};
use crate::position::Position;
use crate::shape::Shape;
use crate::vararray::Unit;

verus! {

/// One dimension's selection: optional start, end and step, defaulting to
/// the whole dimension walked one element at a time.
#[derive(Debug, Clone, Copy)]
pub struct Interval {
    start: Option<usize>,
    end: Option<usize>,
    step: Option<usize>,
}

impl Interval {
    pub closed spec fn spec_start_index(self) -> usize {
        match self.start {
            Some(s) => s,
            None => 0,
        }
    }

    pub closed spec fn spec_end_index(self, dim: usize) -> usize {
        match self.end {
            Some(e) => e,
            None => dim,
        }
    }

    pub closed spec fn spec_step(self) -> usize {
        match self.step {
            Some(s) => s,
            None => 1,
        }
    }

    /// How many indices the interval selects out of a dimension of the given
    /// size.
    pub open spec fn spec_len(self, dim: usize) -> int {
        (self.spec_end_index(dim) - self.spec_start_index()) / (self.spec_step() as int)
    }

    pub fn new(start: Option<usize>, end: Option<usize>, step: Option<usize>) -> (r: Interval)
        ensures
            r.spec_start_index() == (match start {
                Some(s) => s,
                None => 0,
            }),
            forall|dim: usize|
                r.spec_end_index(dim) == (match end {
                    Some(e) => e,
                    None => dim,
                }),
            r.spec_step() == (match step {
                Some(s) => s,
                None => 1,
            }),
    {
        Interval { start, end, step }
    }

    pub fn start_to(end: usize) -> (r: Interval)
        ensures
            r.spec_start_index() == 0,
            forall|dim: usize| r.spec_end_index(dim) == end,
            r.spec_step() == 1,
    {
        Interval { start: None, end: Some(end), step: None }
    }

    pub fn end_from(start: usize) -> (r: Interval)
        ensures
            r.spec_start_index() == start,
            forall|dim: usize| r.spec_end_index(dim) == dim,
            r.spec_step() == 1,
    {
        Interval { start: Some(start), end: None, step: None }
    }

    pub fn between(start: usize, end: usize) -> (r: Interval)
        ensures
            r.spec_start_index() == start,
            forall|dim: usize| r.spec_end_index(dim) == end,
            r.spec_step() == 1,
    {
        Interval { start: Some(start), end: Some(end), step: None }
    }

    pub fn between_with_step(start: usize, end: usize, step: usize) -> (r: Interval)
        ensures
            r.spec_start_index() == start,
            forall|dim: usize| r.spec_end_index(dim) == end,
            r.spec_step() == step,
    {
        Interval { start: Some(start), end: Some(end), step: Some(step) }
    }

    pub fn only(start: usize) -> (r: Interval)
        requires
            start < usize::MAX,
        ensures
            r.spec_start_index() == start,
            forall|dim: usize| r.spec_end_index(dim) == start + 1,
            r.spec_step() == 1,
    {
        Interval { start: Some(start), end: Some(start + 1), step: None }
    }

    pub fn all() -> (r: Interval)
        ensures
            r.spec_start_index() == 0,
            forall|dim: usize| r.spec_end_index(dim) == dim,
            r.spec_step() == 1,
    {
        Interval { start: None, end: None, step: None }
    }

    pub fn start_index(&self) -> (r: usize)
        ensures
            r == self.spec_start_index(),
    {
        match self.start {
            Some(s) => s,
            None => 0,
        }
    }

    pub fn end_index(&self, dim: usize) -> (r: usize)
        ensures
            r == self.spec_end_index(dim),
    {
        match self.end {
            Some(e) => e,
            None => dim,
        }
    }

    pub fn step(&self) -> (r: usize)
        ensures
            r == self.spec_step(),
    {
        match self.step {
            Some(s) => s,
            None => 1,
        }
    }

    pub fn len(&self, dim: usize) -> (r: usize)
        requires
            self.spec_step() >= 1,
            self.spec_start_index() <= self.spec_end_index(dim),
        ensures
            r == self.spec_len(dim),
    {
        let start_index = self.start_index();
        let finish_index = self.end_index(dim);
        let step_index = self.step();
        (finish_index - start_index) / step_index
    }
}

/// A full selection: one interval for each dimension of a base shape.
#[derive(Debug)]
pub struct Slice {
    intervals: Vec<Interval>,
    shape: Shape,
}

impl Slice {
    pub closed spec fn intervals_view(self) -> Seq<Interval> {
        self.intervals@
    }

    pub closed spec fn shape_view(self) -> Seq<Unit> {
        self.shape@
    }

    /// Every interval steps forward and selects a non-empty stretch inside
    /// its dimension.
    pub open spec fn wf(self) -> bool {
        &&& self.intervals_view().len() == self.shape_view().len()
        &&& forall|i: int|
            0 <= i < self.intervals_view().len() ==> {
                &&& (#[trigger] self.intervals_view()[i]).spec_step() >= 1
                &&& self.intervals_view()[i].spec_start_index()
                    + self.intervals_view()[i].spec_step() <= self.intervals_view()[
                    i
                ].spec_end_index(self.shape_view()[i])
                &&& self.intervals_view()[i].spec_end_index(self.shape_view()[i])
                    <= self.shape_view()[i]
            }
    }

    /// Sizes of the selection, dimension by dimension.
    pub open spec fn inferred_dims(self) -> Seq<Unit> {
        Seq::new(
            self.intervals_view().len(),
            |i: int| self.intervals_view()[i].spec_len(self.shape_view()[i]) as usize,
        )
    }

    /// The selection's origin inside the base shape.
    pub open spec fn start_coords(self) -> Seq<Unit> {
        Seq::new(self.intervals_view().len(), |i: int| self.intervals_view()[i].spec_start_index())
    }

    pub fn new(intervals: Vec<Interval>, shape: Shape) -> (r: Slice)
        ensures
            r.intervals_view() == intervals@,
            r.shape_view() == shape@,
    {
        Slice { intervals, shape }
    }

    pub fn as_boxed_slice(&self) -> (r: &Vec<Interval>)
        ensures
            r@ == self.intervals_view(),
    {
        &self.intervals
    }

    pub fn base_shape(&self) -> (r: &Shape)
        ensures
            r@ == self.shape_view(),
    {
        &self.shape
    }

    pub fn inferred_shape(&self) -> (r: Shape)
        requires
            self.wf(),
        ensures
            r@ == self.inferred_dims(),
    {
        let n = self.intervals.len();
        let mut buf: Vec<Unit> = Vec::new();
        for i in 0..n
            invariant
                self.wf(),
                n == self.intervals@.len(),
                buf@.len() == i,
                forall|j: int| 0 <= j < i ==> buf@[j] == self.inferred_dims()[j],
        {
            let dim = match self.shape.get(i) {
                Ok(d) => d,
                Err(_) => {
                    proof {
                        assert(false);
                    }
                    0
                },
            };
            buf.push(self.intervals[i].len(dim));
        }
        let r = Shape::from_slice(buf.as_slice());
        proof {
            assert(r@ =~= self.inferred_dims());
        }
        r
    }

    pub fn len(&self) -> (r: usize)
        requires
            self.wf(),
        ensures
            r == self.inferred_dims().len(),
    {
        self.inferred_shape().len()
    }

    pub fn elements(&self) -> (r: usize)
        requires
            self.wf(),
            forall|i: int|
                0 <= i <= self.inferred_dims().len() ==> seq_prod(
                    #[trigger] self.inferred_dims().subrange(i, self.inferred_dims().len() as int),
                ) <= usize::MAX,
        ensures
            r == seq_prod(self.inferred_dims()),
    {
        self.inferred_shape().elements()
    }

    pub fn start(&self) -> (r: Position)
        ensures
            r@ == self.start_coords(),
    {
        let n = self.intervals.len();
        let mut buf: Vec<Unit> = Vec::new();
        for i in 0..n
            invariant
                n == self.intervals@.len(),
                buf@.len() == i,
                forall|j: int| 0 <= j < i ==> buf@[j] == self.start_coords()[j],
        {
            buf.push(self.intervals[i].start_index());
        }
        let r = Position::from_slice(buf.as_slice());
        proof {
            assert(r@ =~= self.start_coords());
        }
        r
    }

    /// The greatest absolute coordinate the selection's stretches reach,
    /// taking each dimension's end back by one (held at zero).
    pub fn last(&self) -> (r: Position)
        requires
            self.intervals_view().len() == self.shape_view().len(),
        ensures
            r@.len() == self.intervals_view().len(),
            forall|i: int|
                0 <= i < r@.len() ==> r@[i] == {
                    let e = self.intervals_view()[i].spec_end_index(self.shape_view()[i]);
                    if e >= 1 {
                        (e - 1) as usize
                    } else {
                        0
                    }
                },
    {
        let n = self.intervals.len();
        let mut buf: Vec<Unit> = Vec::new();
        for i in 0..n
            invariant
                n == self.intervals@.len(),
                self.intervals@.len() == self.shape@.len(),
                buf@.len() == i,
                forall|j: int|
                    0 <= j < i ==> buf@[j] == {
                        let e = self.intervals@[j].spec_end_index(self.shape@[j]);
                        if e >= 1 {
                            (e - 1) as usize
                        } else {
                            0
                        }
                    },
        {
            let dim = match self.shape.get(i) {
                Ok(d) => d,
                Err(_) => {
                    proof {
                        assert(false);
                    }
                    0
                },
            };
            let e = self.intervals[i].end_index(dim);
            if e >= 1 {
                buf.push(e - 1);
            } else {
                buf.push(0);
            }
        }
        Position::from_slice(buf.as_slice())
    }

    pub fn iter(&self) -> (r: SliceIter)
        requires
            self.wf(),
            seq_prod(self.inferred_dims()) <= MAX_ELEMS,
        ensures
            r.wf(),
            r.dims() == self.inferred_dims(),
            r.starts() == self.start_coords(),
            r.index() == 0,
            !r.done(),
    {
        SliceIter::new(self)
    }
}

/// Row-major walk over a selection, yielding absolute coordinates of the
/// base shape: the selection's origin moved through every selected offset.
pub struct SliceIter {
    pos: Position,
    until: Position,
    slice_shape: Shape,
    starts: Position,
    is_done: bool,
}

impl SliceIter {
    pub closed spec fn dims(&self) -> Seq<Unit> {
        self.slice_shape@
    }

    pub closed spec fn starts(&self) -> Seq<Unit> {
        self.starts@
    }

    pub closed spec fn index(&self) -> nat {
        rank_of(self.pos@, self.slice_shape@)
    }

    pub closed spec fn done(&self) -> bool {
        self.is_done
    }

    pub closed spec fn wf(&self) -> bool {
        &&& coords_in_bounds(self.pos@, self.slice_shape@)
        &&& self.until@ == Seq::new(
            self.slice_shape@.len(),
            |i: int| (self.slice_shape@[i] - 1) as usize,
        )
        &&& self.starts@.len() == self.slice_shape@.len()
        &&& seq_prod(self.slice_shape@) <= MAX_ELEMS
        &&& forall|i: int|
            0 <= i < self.slice_shape@.len() ==> #[trigger] (self.slice_shape@[i] as int)
                + self.starts@[i] <= usize::MAX
    }

    pub fn new(slice: &Slice) -> (r: SliceIter)
        requires
            slice.wf(),
            seq_prod(slice.inferred_dims()) <= MAX_ELEMS,
        ensures
            r.wf(),
            r.dims() == slice.inferred_dims(),
            r.starts() == slice.start_coords(),
            r.index() == 0,
            !r.done(),
    {
        let slice_shape = slice.inferred_shape();
        proof {
            assert forall|i: int| 0 <= i < slice.inferred_dims().len() implies slice.inferred_dims()[i]
                >= 1 by {
                let iv = slice.intervals_view()[i];
                let dim = slice.shape_view()[i];
                let w = iv.spec_end_index(dim) - iv.spec_start_index();
                let s = iv.spec_step() as int;
                assert(w >= s >= 1);
                assert(w / s >= 1) by (nonlinear_arith)
                    requires
                        w >= s >= 1,
                ;
            }
            assert forall|i: int| 0 <= i < slice.inferred_dims().len() implies #[trigger] (
            slice.inferred_dims()[i] as int) + slice.start_coords()[i] <= usize::MAX by {
                let iv = slice.intervals_view()[i];
                let dim = slice.shape_view()[i];
                let w = iv.spec_end_index(dim) - iv.spec_start_index();
                let s = iv.spec_step() as int;
                vstd::arithmetic::div_mod::lemma_div_nonincreasing(w, s);
                assert(w / s <= w);
            }
        }
        let first = slice_shape.first();
        let until = slice_shape.last();
        proof {
            crate::coords::lemma_rank_zero(first@, slice_shape@);
        }
        let starts = slice.start();
        proof {
            assert(until@ =~= Seq::new(
                slice_shape@.len(),
                |i: int| (slice_shape@[i] - 1) as usize,
            ));
        }
        SliceIter { pos: first, until, slice_shape, starts, is_done: false }
    }

    /// Yields the absolute coordinate of the walk's current offset, then
    /// steps; `None` once every selected offset has been yielded.
    pub fn next(&mut self) -> (r: Option<Position>)
        requires
            old(self).wf(),
        ensures
            final(self).wf(),
            final(self).dims() == old(self).dims(),
            final(self).starts() == old(self).starts(),
            old(self).done() ==> r is None && final(self).done(),
            !old(self).done() && old(self).index() + 1 < seq_prod(old(self).dims()) ==> {
                &&& r matches Some(p) && exists|q: Seq<Unit>|
                    coords_in_bounds(q, old(self).dims()) && rank_of(q, old(self).dims()) == old(
                        self,
                    ).index() && p@ == shifted(q, old(self).starts())
                &&& final(self).index() == old(self).index() + 1
                &&& !final(self).done()
            },
            !old(self).done() && old(self).index() + 1 == seq_prod(old(self).dims()) ==> {
                &&& r matches Some(p) && exists|q: Seq<Unit>|
                    coords_in_bounds(q, old(self).dims()) && rank_of(q, old(self).dims()) == old(
                        self,
                    ).index() && p@ == shifted(q, old(self).starts())
                &&& final(self).done()
            },
    {
        proof {
            if !self.is_done {
                crate::coords::lemma_rank_last_coord(self.slice_shape@);
                lemma_rank_bound(self.pos@, self.slice_shape@);
                if self.pos@ == self.until@ {
                    assert(self.index() + 1 == seq_prod(self.dims()));
                }
                if rank_of(self.pos@, self.slice_shape@) + 1 == seq_prod(self.slice_shape@) {
                    lemma_rank_injective(self.pos@, self.until@, self.slice_shape@);
                    assert(self.pos@ == self.until@);
                }
            }
        }
        if self.is_done {
            None
        } else if self.pos == self.until {
            self.is_done = true;
            let out = match self.pos.add(&self.starts) {
                Ok(p) => p,
                Err(_) => {
                    proof {
                        assert(false);
                    }
                    self.pos.clone()
                },
            };
            proof {
                assert(out@ =~= shifted(self.pos@, self.starts@));
            }
            Some(out)
        } else {
            let out = match self.pos.add(&self.starts) {
                Ok(p) => p,
                Err(_) => {
                    proof {
                        assert(false);
                    }
                    self.pos.clone()
                },
            };
            proof {
                assert(out@ =~= shifted(self.pos@, self.starts@));
            }
            let res = self.pos.incdec_mut(&self.slice_shape, 1);
            proof {
                assert(res is Ok);
            }
            Some(out)
        }
    }
}

} // verus!
