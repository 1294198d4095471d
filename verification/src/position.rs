use vstd::prelude::*;

use crate::coords::{
    coords_in_bounds, dot, lemma_dot_prefix_le, lemma_prod_first, lemma_prod_pos,
    lemma_prod_subrange_le, lemma_rank_bound, lemma_rank_first, lemma_rank_injective, rank_of,
    seq_prod, MAX_ELEMS,
};
use crate::shape::Shape;
use crate::stride::Stride;
use crate::vararray::{Unit, VarArray, VarArrayError};

verus! {

#[derive(Debug, PartialEq, Eq)]
pub enum PositionError {
    StrideLengthMismatch(usize, usize),
    DimensionsMismatch(usize, usize),
    PositionOverUnderFlow(i64),
    OperationOverUnderFlow(usize, usize),
}

/// A coordinate tuple. Viewed as the sequence of per-dimension indices.
#[derive(Debug)]
pub struct Position(VarArray);

impl View for Position {
    type V = Seq<Unit>;

    closed spec fn view(&self) -> Seq<Unit> {
        self.0@
    }
}

impl Position {
    pub fn new(data: VarArray) -> (r: Position)
        ensures
            r@ == data@,
    {
        Position(data)
    }

    pub fn from_slice(coords: &[Unit]) -> (r: Position)
        ensures
            r@ == coords@,
    {
        Position(VarArray::from_slice(coords))
    }

    pub fn len(&self) -> (n: usize)
        ensures
            n == self@.len(),
    {
        self.0.len()
    }

    pub fn get(&self, index: usize) -> (r: Result<Unit, VarArrayError>)
        ensures
            r is Ok <==> index < self@.len(),
            r matches Ok(v) ==> v == self@[index as int],
    {
        self.0.get(index)
    }

    pub fn as_slice(&self) -> (r: &[Unit])
        ensures
            r@ == self@,
    {
        self.0.as_slice()
    }

    pub fn iter(&self) -> (r: crate::vararray::Iter)
        ensures
            r.entries() == self@,
            r.index() == 0,
    {
        self.0.iter()
    }

    /// Pointwise sum of two coordinates.
    pub fn add(&self, rhs: &Position) -> (r: Result<Position, VarArrayError>)
        requires
            self@.len() == rhs@.len() ==> forall|i: int|
                0 <= i < self@.len() ==> self@[i] + rhs@[i] <= usize::MAX,
        ensures
            r is Ok <==> self@.len() == rhs@.len(),
            r matches Ok(v) ==> v@.len() == self@.len() && forall|i: int|
                0 <= i < self@.len() ==> v@[i] == self@[i] + rhs@[i],
    {
        match self.0.add(&rhs.0) {
            Ok(v) => Ok(Position(v)),
            Err(e) => Err(e),
        }
    }

    /// Buffer index of this coordinate under the given stride: their dot
    /// product. Rejects a stride of another rank.
    pub fn tensor_index(&self, stride: &Stride) -> (r: Result<usize, PositionError>)
        requires
            self@.len() == stride@.len() ==> dot(self@, stride@) <= usize::MAX,
        ensures
            r is Ok <==> self@.len() == stride@.len(),
            r matches Ok(v) ==> v == dot(self@, stride@),
            r matches Err(e) ==> e == PositionError::StrideLengthMismatch(
                self@.len() as usize,
                stride@.len() as usize,
            ),
    {
        let p = self.0.as_slice();
        let s = stride.as_slice();
        if p.len() != s.len() {
            return Err(PositionError::StrideLengthMismatch(p.len(), s.len()));
        }
        let mut acc: usize = 0;
        proof {
            assert(p@.subrange(0, 0) =~= Seq::<Unit>::empty());
            assert(s@.subrange(0, 0) =~= Seq::<Unit>::empty());
        }
        for i in 0..p.len()
            invariant
                p@ == self@,
                s@ == stride@,
                p@.len() == s@.len(),
                acc == dot(p@.subrange(0, i as int), s@.subrange(0, i as int)),
                dot(p@, s@) <= usize::MAX,
        {
            proof {
                assert(p@.subrange(0, i + 1).drop_last() =~= p@.subrange(0, i as int));
                assert(s@.subrange(0, i + 1).drop_last() =~= s@.subrange(0, i as int));
                assert(dot(p@.subrange(0, i + 1), s@.subrange(0, i + 1)) == dot(
                    p@.subrange(0, i as int),
                    s@.subrange(0, i as int),
                ) + (p@[i as int] as nat) * (s@[i as int] as nat));
                lemma_dot_prefix_le(p@, s@, i + 1);
            }
            acc = acc + p[i] * s[i];
        }
        proof {
            assert(p@.subrange(0, p@.len() as int) =~= p@);
            assert(s@.subrange(0, s@.len() as int) =~= s@);
        }
        Ok(acc)
    }

    /// True when every index sits inside the matching bound and the
    /// coordinate is not empty; compares only over the shorter rank.
    pub fn within_bounds(&self, bounds: &Shape) -> (r: bool)
        ensures
            r <==> (self@.len() > 0 && forall|i: int|
                0 <= i < self@.len() && i < bounds@.len() ==> self@[i] < bounds@[i]),
    {
        let p = self.0.as_slice();
        let b = bounds.as_slice();
        if p.len() == 0 {
            return false;
        }
        let m: usize = if p.len() < b.len() {
            p.len()
        } else {
            b.len()
        };
        for i in 0..m
            invariant
                p@ == self@,
                b@ == bounds@,
                m <= p@.len(),
                m <= b@.len(),
                m == p@.len() || m == b@.len(),
                p@.len() > 0,
                forall|j: int| 0 <= j < i ==> p@[j] < b@[j],
        {
            if p[i] >= b[i] {
                return false;
            }
        }
        true
    }

    /// Moves the coordinate by `off` places in row-major enumeration order,
    /// in place, carrying across dimensions by Euclidean division. Succeeds
    /// exactly when the moved rank still falls inside the bounds; otherwise
    /// the coordinate holds the wrapped digits and the offset is reported.
    pub fn incdec_mut(&mut self, bounds: &Shape, off: i64) -> (r: Result<(), PositionError>)
        requires
            old(self)@.len() == bounds@.len(),
            coords_in_bounds(old(self)@, bounds@),
            seq_prod(bounds@) <= MAX_ELEMS,
            -(MAX_ELEMS as int) <= off as int <= MAX_ELEMS as int,
        ensures
            final(self)@.len() == old(self)@.len(),
            coords_in_bounds(final(self)@, bounds@),
            r is Ok <==> 0 <= off + rank_of(old(self)@, bounds@) < seq_prod(bounds@),
            r is Ok ==> rank_of(final(self)@, bounds@) == off + rank_of(old(self)@, bounds@),
            r matches Err(e) ==> e == PositionError::PositionOverUnderFlow(off),
    {
        let ghost dims = bounds@;
        let ghost orig = self@;
        let n = bounds.len();
        let bs = bounds.as_slice();
        let mut curr: i64 = off;
        let mut i: usize = n;
        proof {
            assert(dims.subrange(n as int, n as int) =~= Seq::<Unit>::empty());
            assert(orig.subrange(n as int, n as int) =~= Seq::<Unit>::empty());
            vstd::arithmetic::div_mod::lemma_fundamental_div_mod(off as int, 1);
            assert(off as int == 1 * (off as int) + 0);
            vstd::arithmetic::div_mod::lemma_fundamental_div_mod_converse(
                off as int,
                1,
                off as int,
                0,
            );
        }
        while i > 0
            invariant
                i <= n,
                n == dims.len(),
                orig.len() == dims.len(),
                bs@ == dims,
                self@.len() == n,
                coords_in_bounds(orig, dims),
                seq_prod(dims) <= MAX_ELEMS,
                -(MAX_ELEMS as int) <= off as int <= MAX_ELEMS as int,
                forall|j: int| 0 <= j < i ==> self@[j] == orig[j],
                forall|j: int| i <= j < n ==> self@[j] < dims[j],
                curr as int == (off + rank_of(
                    orig.subrange(i as int, n as int),
                    dims.subrange(i as int, n as int),
                )) / (seq_prod(dims.subrange(i as int, n as int)) as int),
                rank_of(self@.subrange(i as int, n as int), dims.subrange(i as int, n as int)) == (
                off + rank_of(orig.subrange(i as int, n as int), dims.subrange(i as int, n as int)))
                    % (seq_prod(dims.subrange(i as int, n as int)) as int),
            decreases i,
        {
            let idx = i - 1;
            let d = bs[idx];
            let ghost suf1_d = dims.subrange(i as int, n as int);
            let ghost suf1_p = orig.subrange(i as int, n as int);
            let ghost p1 = seq_prod(suf1_d) as int;
            let ghost x1 = off + rank_of(suf1_p, suf1_d);
            let ghost q = curr as int;
            proof {
                assert(coords_in_bounds(suf1_p, suf1_d));
                lemma_rank_bound(suf1_p, suf1_d);
                lemma_prod_pos(suf1_d);
                lemma_prod_subrange_le(dims, i as int, n as int);
                lemma_prod_subrange_le(dims, idx as int, idx as int + 1);
                assert(dims.subrange(idx as int, idx as int + 1) =~= seq![dims[idx as int]]);
                assert(seq![dims[idx as int]].drop_last() =~= Seq::<Unit>::empty());
                assert(seq_prod(Seq::<Unit>::empty()) == 1);
                assert(seq_prod(seq![dims[idx as int]]) == 1 * (d as nat));
                assert(d as nat <= seq_prod(dims));
                // bounds on the running quotient, so the additions below fit
                vstd::arithmetic::div_mod::lemma_fundamental_div_mod(x1, p1);
                vstd::arithmetic::div_mod::lemma_mod_bound(x1, p1);
                assert(x1 == p1 * q + x1 % p1);
                assert(q <= 2 * (MAX_ELEMS as int)) by (nonlinear_arith)
                    requires
                        p1 * q <= 2 * (MAX_ELEMS as int),
                        p1 >= 1,
                ;
                assert(q >= -(MAX_ELEMS as int) - 1) by (nonlinear_arith)
                    requires
                        p1 * q >= -(MAX_ELEMS as int) - p1,
                        p1 >= 1,
                ;
            }
            let pv = self.0.as_slice()[idx];
            let c: i64 = curr + (pv as i64);
            proof {
                let ci = c as int;
                let di = d as int;
                vstd::arithmetic::div_mod::lemma_fundamental_div_mod(ci, di);
                vstd::arithmetic::div_mod::lemma_mod_bound(ci, di);
                let qi = ci / di;
                assert(di * qi <= ci && di * qi >= ci - di);
                assert(qi <= 3 * (MAX_ELEMS as int)) by (nonlinear_arith)
                    requires
                        di * qi <= 3 * (MAX_ELEMS as int),
                        di >= 1,
                ;
                assert(qi >= -3 * (MAX_ELEMS as int)) by (nonlinear_arith)
                    requires
                        di * qi >= -3 * (MAX_ELEMS as int),
                        di >= 1,
                ;
            }
            let rem: i64 = match c.checked_rem_euclid(d as i64) {
                Some(v) => v,
                None => {
                    proof {
                        assert(false);
                    }
                    0
                },
            };
            let quo: i64 = match c.checked_div_euclid(d as i64) {
                Some(v) => v,
                None => {
                    proof {
                        assert(false);
                    }
                    0
                },
            };
            let ghost prev = self@;
            let set_ok = self.0.set(idx, rem as usize);
            proof {
                let suf0_d = dims.subrange(idx as int, n as int);
                let suf0_p = orig.subrange(idx as int, n as int);
                let p0 = seq_prod(suf0_d) as int;
                let x0 = off + rank_of(suf0_p, suf0_d);
                let r1 = rank_of(prev.subrange(i as int, n as int), suf1_d);
                let di = d as int;
                let remi = rem as int;
                let quoi = quo as int;
                // peel the front dimension off the suffix product and rank
                lemma_prod_first(suf0_d);
                assert(suf0_d.drop_first() =~= suf1_d);
                assert(p0 == di * p1);
                lemma_rank_first(suf0_p, suf0_d);
                assert(suf0_p.drop_first() =~= suf1_p);
                assert(suf0_p.first() == orig[idx as int]);
                assert(x0 == x1 + (orig[idx as int] as int) * p1);
                // the carry step is one Euclidean decomposition of x0 by p0
                assert(x1 == q * p1 + r1) by {
                    assert(x1 == p1 * q + x1 % p1);
                    assert(r1 == x1 % p1);
                };
                assert(c as int == q + orig[idx as int]);
                assert(c as int == quoi * di + remi) by {
                    vstd::arithmetic::div_mod::lemma_fundamental_div_mod(c as int, di);
                };
                assert(x0 == (quoi * di + remi) * p1 + r1) by (nonlinear_arith)
                    requires
                        x0 == x1 + (orig[idx as int] as int) * p1,
                        x1 == q * p1 + r1,
                        c as int == q + orig[idx as int],
                        c as int == quoi * di + remi,
                ;
                assert(x0 == quoi * p0 + (remi * p1 + r1)) by (nonlinear_arith)
                    requires
                        x0 == (quoi * di + remi) * p1 + r1,
                        p0 == di * p1,
                ;
                assert(0 <= remi * p1 + r1 < p0) by (nonlinear_arith)
                    requires
                        0 <= remi < di,
                        0 <= r1 < p1,
                        p0 == di * p1,
                ;
                vstd::arithmetic::div_mod::lemma_fundamental_div_mod_converse(
                    x0,
                    p0,
                    quoi,
                    remi * p1 + r1,
                );
                // the updated digit list encodes exactly that remainder
                assert(self@ == prev.update(idx as int, rem as usize));
                assert(self@.subrange(i as int, n as int) =~= prev.subrange(i as int, n as int));
                let new_suf = self@.subrange(idx as int, n as int);
                lemma_rank_first(new_suf, suf0_d);
                assert(new_suf.drop_first() =~= self@.subrange(i as int, n as int));
                assert(new_suf.first() == rem as usize);
                assert(rank_of(new_suf, suf0_d) == remi * p1 + r1);
            }
            curr = quo;
            i = idx;
        }
        proof {
            assert(dims.subrange(0, n as int) =~= dims);
            assert(orig.subrange(0, n as int) =~= orig);
            assert(self@.subrange(0, n as int) =~= self@);
            let x = off + rank_of(orig, dims);
            let p = seq_prod(dims) as int;
            assert(forall|j: int| 0 <= j < dims.len() ==> dims[j] >= 1);
            lemma_prod_pos(dims);
            vstd::arithmetic::div_mod::lemma_fundamental_div_mod(x, p);
            vstd::arithmetic::div_mod::lemma_mod_bound(x, p);
            if 0 <= x < p {
                vstd::arithmetic::div_mod::lemma_basic_div(x, p);
            }
            assert(curr as int == x / p);
            if curr as int == 0 {
                assert(x == p * 0 + x % p);
                assert(0 <= x < p);
                assert(rank_of(self@, dims) == x % p);
                assert(x % p == x);
            }
        }
        if curr != 0 {
            Err(PositionError::PositionOverUnderFlow(off))
        } else {
            Ok(())
        }
    }

    /// Like `incdec_mut`, but hands back a moved copy.
    pub fn incdec(&self, bounds: &Shape, off: i64) -> (r: Result<Position, PositionError>)
        requires
            self@.len() == bounds@.len(),
            coords_in_bounds(self@, bounds@),
            seq_prod(bounds@) <= MAX_ELEMS,
            -(MAX_ELEMS as int) <= off as int <= MAX_ELEMS as int,
        ensures
            r is Ok <==> 0 <= off + rank_of(self@, bounds@) < seq_prod(bounds@),
            r matches Ok(v) ==> coords_in_bounds(v@, bounds@) && rank_of(v@, bounds@) == off
                + rank_of(self@, bounds@),
            r matches Err(e) ==> e == PositionError::PositionOverUnderFlow(off),
    {
        let mut new_position = self.clone();
        match new_position.incdec_mut(bounds, off) {
            Ok(()) => Ok(new_position),
            Err(e) => Err(e),
        }
    }

    /// Walks from this coordinate to `until`, both inclusive, in row-major
    /// order; the walk starts one past this coordinate unless it already
    /// equals `until`.
    pub fn iter_positions<'a>(&self, until: &'a Position, bounds: &'a Shape) -> (r: Iter<'a>)
        requires
            coords_in_bounds(self@, bounds@),
            coords_in_bounds(until@, bounds@),
            rank_of(self@, bounds@) <= rank_of(until@, bounds@),
            seq_prod(bounds@) <= MAX_ELEMS,
        ensures
            r.wf(),
            r.current() == self@,
            r.target() == until@,
            r.bounds_view() == bounds@,
            !r.done(),
    {
        Iter::new(self.clone(), until, bounds)
    }
}

impl Clone for Position {
    fn clone(&self) -> (res: Position)
        ensures
            res@ == self@,
    {
        Position(self.0.clone())
    }
}

impl PartialEq for Position {
    fn eq(&self, other: &Position) -> (r: bool) {
        self.0 == other.0
    }
}

impl vstd::std_specs::cmp::PartialEqSpecImpl for Position {
    open spec fn obeys_eq_spec() -> bool {
        true
    }

    open spec fn eq_spec(&self, other: &Position) -> bool {
        self@ == other@
    }
}

impl Eq for Position {
}

/// Inclusive row-major walk between two coordinates of one shape.
pub struct Iter<'a> {
    pos: Position,
    until: &'a Position,
    bounds: &'a Shape,
    is_done: bool,
}

impl<'a> Iter<'a> {
    pub closed spec fn current(&self) -> Seq<Unit> {
        self.pos@
    }

    pub closed spec fn target(&self) -> Seq<Unit> {
        self.until@
    }

    pub closed spec fn bounds_view(&self) -> Seq<Unit> {
        self.bounds@
    }

    pub closed spec fn done(&self) -> bool {
        self.is_done
    }

    pub closed spec fn wf(&self) -> bool {
        &&& coords_in_bounds(self.pos@, self.bounds@)
        &&& coords_in_bounds(self.until@, self.bounds@)
        &&& rank_of(self.pos@, self.bounds@) <= rank_of(self.until@, self.bounds@)
        &&& seq_prod(self.bounds@) <= MAX_ELEMS
    }

    pub fn new(pos: Position, until: &'a Position, bounds: &'a Shape) -> (r: Iter<'a>)
        requires
            coords_in_bounds(pos@, bounds@),
            coords_in_bounds(until@, bounds@),
            rank_of(pos@, bounds@) <= rank_of(until@, bounds@),
            seq_prod(bounds@) <= MAX_ELEMS,
        ensures
            r.wf(),
            r.current() == pos@,
            r.target() == until@,
            r.bounds_view() == bounds@,
            !r.done(),
    {
        Iter { pos, until, bounds, is_done: false }
    }

    /// Yields the coordinate one step past the current one, or the current
    /// one itself once it has reached the target; `None` after that.
    pub fn next(&mut self) -> (r: Option<Position>)
        requires
            old(self).wf(),
        ensures
            final(self).wf(),
            final(self).target() == old(self).target(),
            final(self).bounds_view() == old(self).bounds_view(),
            old(self).done() ==> r is None && final(self).current() == old(self).current()
                && final(self).done(),
            !old(self).done() && old(self).current() == old(self).target() ==> {
                &&& r matches Some(p) && p@ == old(self).current()
                &&& final(self).done()
            },
            !old(self).done() && old(self).current() != old(self).target() ==> {
                &&& r matches Some(p) && p@ == final(self).current()
                &&& rank_of(final(self).current(), final(self).bounds_view()) == rank_of(
                    old(self).current(),
                    old(self).bounds_view(),
                ) + 1
                &&& !final(self).done()
            },
    {
        if self.is_done {
            None
        } else if self.pos == *self.until {
            self.is_done = true;
            Some(self.pos.clone())
        } else {
            proof {
                if rank_of(self.pos@, self.bounds@) == rank_of(self.until@, self.bounds@) {
                    lemma_rank_injective(self.pos@, self.until@, self.bounds@);
                }
                lemma_rank_bound(self.until@, self.bounds@);
            }
            let res = self.pos.incdec_mut(self.bounds, 1);
            proof {
                assert(res is Ok);
            }
            Some(self.pos.clone())
        }
    }
}

} // verus!
