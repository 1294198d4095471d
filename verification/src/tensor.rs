use std::sync::Arc;

use vstd::prelude::*;

use crate::coords::{
    coords_in_bounds, dims_bounded, dot, lemma_dims_bounded_total, lemma_dot_concat,
    lemma_dot_default_stride, lemma_dot_shifted, lemma_dot_zero_stride,
    lemma_lin_default_identity, lemma_lin_of_rank, lemma_prod_pointwise_le,
    lemma_prod_pos, lemma_rank_bound, lemma_rank_injective, lemma_rank_last_coord, lin_index,
    rank_of, seq_prod, shifted, MAX_ELEMS,
};
use crate::engine::EngineError;
use crate::position::Position;
use crate::shape::Shape;
use crate::slice::{Interval, Slice};
use crate::stride::Stride;
use crate::vararray::Unit;

verus! {

/// Relies on the standard library's Arc clone: the clone is a handle to the
/// same shared value.
#[verifier::external_body]
fn clone_buffer(b: &Arc<Vec<i64>>) -> (res: Arc<Vec<i64>>)
    ensures
        res == *b,
{
    Arc::clone(b)
}

/// Strided view over a shared immutable buffer: a coordinate maps to the
/// buffer element at `offset + stride . coordinate`. Many views may share
/// one buffer.
#[derive(Debug)]
pub struct Array {
    stride: Stride,
    shape: Shape,
    data: Arc<Vec<i64>>,
    offset: usize,
}

impl Array {
    pub closed spec fn dims(self) -> Seq<Unit> {
        self.shape@
    }

    pub closed spec fn strides(self) -> Seq<Unit> {
        self.stride@
    }

    pub closed spec fn buf(self) -> Seq<i64> {
        self.data@
    }

    pub closed spec fn off(self) -> nat {
        self.offset as nat
    }

    /// The element the view shows at an in-bounds coordinate.
    pub open spec fn at(self, pos: Seq<Unit>) -> i64 {
        self.buf()[(self.off() + dot(pos, self.strides())) as int]
    }

    /// The view's elements in row-major order.
    pub open spec fn contents(self) -> Seq<i64> {
        Seq::new(
            seq_prod(self.dims()),
            |k: int| self.buf()[(self.off() + lin_index(self.dims(), self.strides(), k as nat)) as int],
        )
    }

    /// Well-formedness: ranks agree, the element count stays within the
    /// supported range, and every in-bounds coordinate lands inside the
    /// shared buffer.
    pub open spec fn valid(self) -> bool {
        &&& self.strides().len() == self.dims().len()
        &&& dims_bounded(self.dims())
        &&& forall|p: Seq<Unit>|
            #[trigger] coords_in_bounds(p, self.dims()) ==> self.off() + dot(p, self.strides())
                < self.buf().len()
    }

    /// Assembles a view from its parts, which must already cohere.
    pub fn from_data(stride: Stride, shape: Shape, data: Arc<Vec<i64>>, offset: usize) -> (r:
        Array)
        requires
            stride@.len() == shape@.len(),
            dims_bounded(shape@),
            forall|p: Seq<Unit>|
                #[trigger] coords_in_bounds(p, shape@) ==> offset + dot(p, stride@) < data@.len(),
        ensures
            r.valid(),
            r.dims() == shape@,
            r.strides() == stride@,
            r.buf() == data@,
            r.off() == offset,
    {
        Array { stride, shape, data, offset }
    }

    /// A fresh contiguous view over a copy of the given elements, which must
    /// fill the shape exactly.
    pub fn from_slice(data: &[i64], shape: Shape) -> (r: Array)
        requires
            data@.len() == seq_prod(shape@),
            dims_bounded(shape@),
        ensures
            r.valid(),
            r.dims() == shape@,
            r.contents() == data@,
    {
        let mut buf: Vec<i64> = Vec::new();
        for i in 0..data.len()
            invariant
                buf@.len() == i,
                forall|j: int| 0 <= j < i ==> buf@[j] == data@[j],
        {
            buf.push(data[i]);
        }
        proof {
            assert(buf@ =~= data@);
        }
        Array::from_vec(buf, shape)
    }

    /// A fresh contiguous view owning the given elements, which must fill
    /// the shape exactly.
    pub fn from_vec(data: Vec<i64>, shape: Shape) -> (r: Array)
        requires
            data@.len() == seq_prod(shape@),
            dims_bounded(shape@),
        ensures
            r.valid(),
            r.dims() == shape@,
            r.contents() == data@,
    {
        let ghost dims = shape@;
        let stride = Stride::default_from_shape(&shape);
        proof {
            assert forall|p: Seq<Unit>| #[trigger] coords_in_bounds(p, dims) implies 0 + dot(
                p,
                stride@,
            ) < data@.len() by {
                lemma_dot_default_stride(p, dims, stride@);
                lemma_rank_bound(p, dims);
            }
        }
        let r = Array { stride, shape, data: Arc::new(data), offset: 0 };
        proof {
            assert(r.contents() =~= data@) by {
                assert forall|k: int| 0 <= k < seq_prod(dims) implies r.contents()[k] == data@[k] by {
                    lemma_lin_default_identity(dims, r.strides(), k as nat);
                }
            }
        }
        r
    }

    pub fn shape(&self) -> (r: &Shape)
        ensures
            r@ == self.dims(),
    {
        &self.shape
    }

    /// Bounds-checked read: the element at an in-bounds coordinate.
    pub fn get(&self, pos: &Position) -> (r: i64)
        requires
            self.valid(),
            coords_in_bounds(pos@, self.dims()),
        ensures
            r == self.at(pos@),
            r == self.contents()[rank_of(pos@, self.dims()) as int],
    {
        let v: &Vec<i64> = &self.data;
        let n = v.len();
        proof {
            assert(n == self.buf().len());
            assert(self.off() + dot(pos@, self.strides()) < self.buf().len());
            lemma_rank_bound(pos@, self.dims());
            lemma_lin_of_rank(pos@, self.dims(), self.strides());
        }
        let index = match pos.tensor_index(&self.stride) {
            Ok(v) => v,
            Err(_) => {
                proof {
                    assert(false);
                }
                0
            },
        };
        v[index + self.offset]
    }

    /// A view of the same buffer, read through this view's duplicate
    /// bookkeeping.
    pub fn duplicate(&self) -> (r: Array)
        ensures
            r.dims() == self.dims(),
            r.strides() == self.strides(),
            r.buf() == self.buf(),
            r.off() == self.off(),
            self.valid() ==> r.valid(),
            r.contents() == self.contents(),
    {
        let r = Array {
            stride: self.stride.clone(),
            shape: self.shape.clone(),
            data: clone_buffer(&self.data),
            offset: self.offset,
        };
        proof {
            assert(r.contents() =~= self.contents());
        }
        r
    }

    /// The k-th element in row-major order, unranked digit by digit from the
    /// rightmost dimension.
    pub fn element(&self, k: usize) -> (r: i64)
        requires
            self.valid(),
            k < seq_prod(self.dims()),
        ensures
            r == self.contents()[k as int],
    {
        let ghost dims = self.dims();
        let ghost strides = self.strides();
        let ghost k0 = k as nat;
        let ds = self.shape.as_slice();
        let ss = self.stride.as_slice();
        let n = ds.len();
        proof {
            assert forall|j: int| 0 <= j < n implies dims[j] >= 1 by {
                if dims[j] == 0 {
                    crate::coords::lemma_prod_zero(dims, j);
                }
            }
            crate::coords::lemma_unrank_exists(dims, k0);
            let pos = choose|pos: Seq<Unit>|
                coords_in_bounds(pos, dims) && rank_of(pos, dims) == k0;
            lemma_lin_of_rank(pos, dims, strides);
            assert(self.off() + lin_index(dims, strides, k0) < self.buf().len());
            assert(dims.subrange(0, n as int) =~= dims);
            assert(strides.subrange(0, n as int) =~= strides);
        }
        let v: &Vec<i64> = &self.data;
        let buflen = v.len();
        let mut acc: usize = 0;
        let mut rem: usize = k;
        let mut i: usize = n;
        while i > 0
            invariant
                i <= n,
                n == dims.len(),
                n == strides.len(),
                ds@ == dims,
                ss@ == strides,
                buflen == self.buf().len(),
                forall|j: int| 0 <= j < n ==> dims[j] >= 1,
                lin_index(dims, strides, k0) == acc + lin_index(
                    dims.subrange(0, i as int),
                    strides.subrange(0, i as int),
                    rem as nat,
                ),
                self.off() + lin_index(dims, strides, k0) < self.buf().len(),
            decreases i,
        {
            let idx = i - 1;
            proof {
                assert(dims.subrange(0, i as int).drop_last() =~= dims.subrange(0, idx as int));
                assert(strides.subrange(0, i as int).drop_last() =~= strides.subrange(
                    0,
                    idx as int,
                ));
                assert(lin_index(
                    dims.subrange(0, i as int),
                    strides.subrange(0, i as int),
                    rem as nat,
                ) == ((rem as nat) % (dims[idx as int] as nat)) * (strides[idx as int] as nat)
                    + lin_index(
                    dims.subrange(0, idx as int),
                    strides.subrange(0, idx as int),
                    (rem as nat) / (dims[idx as int] as nat),
                ));
            }
            let digit = rem % ds[idx];
            acc = acc + digit * ss[idx];
            rem = rem / ds[idx];
            i = idx;
        }
        proof {
            assert(dims.subrange(0, 0) =~= Seq::<Unit>::empty());
            assert(lin_index(
                Seq::<Unit>::empty(),
                strides.subrange(0, 0),
                rem as nat,
            ) == 0);
            assert(acc == lin_index(dims, strides, k0));
        }
        v[self.offset + acc]
    }

    /// True when the view's strides are exactly the row-major strides of its
    /// shape, so its elements sit consecutively from the offset on.
    pub fn is_contiguous(&self) -> (r: bool)
        requires
            self.valid(),
        ensures
            r <==> forall|i: int|
                0 <= i < self.dims().len() ==> self.strides()[i] == seq_prod(
                    #[trigger] self.dims().subrange(i + 1, self.dims().len() as int),
                ),
    {
        proof {
            lemma_dims_bounded_total(self.dims());
        }
        let def = Stride::default_from_shape(&self.shape);
        let r = self.stride == def;
        proof {
            if self.strides() == def@ {
                assert(forall|i: int|
                    0 <= i < self.dims().len() ==> self.strides()[i] == seq_prod(
                        #[trigger] self.dims().subrange(i + 1, self.dims().len() as int),
                    ));
            }
            if forall|i: int|
                0 <= i < self.dims().len() ==> self.strides()[i] == seq_prod(
                    #[trigger] self.dims().subrange(i + 1, self.dims().len() as int),
                ) {
                assert(self.strides() =~= def@);
            }
        }
        r
    }

    /// A view of the same buffer restricted to the selection: the origin
    /// advances to the selection's start, the shape shrinks to the selected
    /// sizes, and the strides stay as they are.
    pub fn slice(&self, intervals: &[Interval]) -> (r: Array)
        requires
            self.valid(),
            intervals@.len() == self.dims().len(),
            forall|i: int|
                0 <= i < intervals@.len() ==> {
                    &&& (#[trigger] intervals@[i]).spec_step() >= 1
                    &&& intervals@[i].spec_start_index() + intervals@[i].spec_step()
                        <= intervals@[i].spec_end_index(self.dims()[i])
                    &&& intervals@[i].spec_end_index(self.dims()[i]) <= self.dims()[i]
                },
        ensures
            r.valid(),
            r.buf() == self.buf(),
            r.strides() == self.strides(),
            r.dims() == Seq::new(
                intervals@.len(),
                |i: int| intervals@[i].spec_len(self.dims()[i]) as usize,
            ),
            r.off() == self.off() + dot(
                Seq::new(intervals@.len(), |i: int| intervals@[i].spec_start_index()),
                self.strides(),
            ),
            forall|p: Seq<Unit>|
                #[trigger] coords_in_bounds(p, r.dims()) ==> coords_in_bounds(
                    shifted(
                        p,
                        Seq::new(intervals@.len(), |i: int| intervals@[i].spec_start_index()),
                    ),
                    self.dims(),
                ) && r.at(p) == self.at(
                    shifted(
                        p,
                        Seq::new(intervals@.len(), |i: int| intervals@[i].spec_start_index()),
                    ),
                ),
    {
        let ghost dims = self.dims();
        let ghost strides = self.strides();
        let ghost starts = Seq::new(
            intervals@.len(),
            |i: int| intervals@[i].spec_start_index(),
        );
        let ghost newdims = Seq::new(
            intervals@.len(),
            |i: int| intervals@[i].spec_len(self.dims()[i]) as usize,
        );
        let n = intervals.len();
        let mut ivec: Vec<Interval> = Vec::new();
        for i in 0..n
            invariant
                n == intervals@.len(),
                ivec@.len() == i,
                forall|j: int| 0 <= j < i ==> ivec@[j] == intervals@[j],
        {
            ivec.push(intervals[i]);
        }
        proof {
            assert(ivec@ =~= intervals@);
        }
        let sl = Slice::new(ivec, self.shape.clone());
        proof {
            assert(sl.wf());
            assert(sl.start_coords() =~= starts);
            assert(sl.inferred_dims() =~= newdims);
            // the selection's sizes and reach stay inside the base dimensions
            assert forall|i: int| 0 <= i < n implies newdims[i] <= dims[i] && starts[i] + newdims[i]
                <= dims[i] by {
                let iv = intervals@[i];
                let w = iv.spec_end_index(dims[i]) - iv.spec_start_index();
                let st = iv.spec_step() as int;
                vstd::arithmetic::div_mod::lemma_div_nonincreasing(w, st);
                vstd::arithmetic::div_mod::lemma_div_pos_is_pos(w, st);
            }
            assert(coords_in_bounds(starts, dims)) by {
                assert forall|i: int| 0 <= i < n implies starts[i] < dims[i] by {
                    let iv = intervals@[i];
                    let w = iv.spec_end_index(dims[i]) - iv.spec_start_index();
                    let st = iv.spec_step() as int;
                    vstd::arithmetic::div_mod::lemma_div_pos_is_pos(w, st);
                    assert(w / st >= 1) by (nonlinear_arith)
                        requires
                            w >= st >= 1,
                    ;
                }
            }
        }
        let v: &Vec<i64> = &self.data;
        let buflen = v.len();
        proof {
            assert(buflen == self.buf().len());
        }
        let starts_pos = sl.start();
        let off_step = match starts_pos.tensor_index(&self.stride) {
            Ok(v) => v,
            Err(_) => {
                proof {
                    assert(false);
                }
                0
            },
        };
        let new_shape = sl.inferred_shape();
        let new_offset = self.offset + off_step;
        proof {
            // boundedness carries over since every new dimension shrank
            assert forall|i: int| 0 <= i <= newdims.len() implies seq_prod(
                #[trigger] newdims.subrange(i, newdims.len() as int),
            ) <= MAX_ELEMS && seq_prod(newdims.subrange(i, newdims.len() as int)) <= usize::MAX by {
                lemma_prod_pointwise_le(
                    newdims.subrange(i, newdims.len() as int),
                    dims.subrange(i, dims.len() as int),
                );
            }
            // every selected coordinate lands where the base view has data
            assert forall|p: Seq<Unit>| #[trigger] coords_in_bounds(p, newdims) implies
                coords_in_bounds(shifted(p, starts), dims) && new_offset + dot(p, strides)
                < self.buf().len() by {
                assert(forall|i: int| 0 <= i < n ==> p[i] + starts[i] < dims[i]);
                assert(coords_in_bounds(shifted(p, starts), dims));
                lemma_dot_shifted(p, starts, strides);
                assert(self.off() + dot(shifted(p, starts), strides) < self.buf().len());
            }
        }
        let r = Array {
            stride: self.stride.clone(),
            shape: new_shape,
            data: clone_buffer(&self.data),
            offset: new_offset,
        };
        proof {
            assert forall|p: Seq<Unit>| #[trigger] coords_in_bounds(p, r.dims()) implies
                coords_in_bounds(shifted(p, starts), dims) && r.at(p) == self.at(
                shifted(p, starts),
            ) by {
                assert(forall|i: int| 0 <= i < n ==> p[i] + starts[i] < dims[i]);
                assert(coords_in_bounds(shifted(p, starts), dims));
                lemma_dot_shifted(p, starts, strides);
            }
        }
        r
    }

    /// A view with extra dimensions of the given sizes spliced in at `pos`,
    /// striding by zero: iteration repeats the existing elements without
    /// touching the buffer.
    pub fn broadcast_splice(&self, pos: usize, sub: &[Unit]) -> (r: Array)
        requires
            self.valid(),
            pos <= self.dims().len(),
            dims_bounded(
                self.dims().subrange(0, pos as int) + sub@ + self.dims().subrange(
                    pos as int,
                    self.dims().len() as int,
                ),
            ),
        ensures
            r.valid(),
            r.buf() == self.buf(),
            r.off() == self.off(),
            r.dims() == self.dims().subrange(0, pos as int) + sub@ + self.dims().subrange(
                pos as int,
                self.dims().len() as int,
            ),
            forall|p: Seq<Unit>|
                #[trigger] coords_in_bounds(p, r.dims()) ==> coords_in_bounds(
                    p.subrange(0, pos as int) + p.subrange(pos + sub@.len(), p.len() as int),
                    self.dims(),
                ) && r.at(p) == self.at(
                    p.subrange(0, pos as int) + p.subrange(pos + sub@.len(), p.len() as int),
                ),
    {
        let ghost dims = self.dims();
        let ghost strides = self.strides();
        let ghost newdims = dims.subrange(0, pos as int) + sub@ + dims.subrange(
            pos as int,
            dims.len() as int,
        );
        let ghost newstrides = strides.subrange(0, pos as int) + Seq::new(sub@.len(), |i: int| 0usize)
            + strides.subrange(pos as int, strides.len() as int);
        let ds = self.shape.as_slice();
        let ss = self.stride.as_slice();
        let n = ds.len();
        let m = sub.len();
        let mut shape_buf: Vec<Unit> = Vec::new();
        let mut stride_buf: Vec<Unit> = Vec::new();
        for i in 0..pos
            invariant
                pos <= n,
                n == dims.len(),
                n == strides.len(),
                ds@ == dims,
                ss@ == strides,
                shape_buf@.len() == i,
                stride_buf@.len() == i,
                forall|j: int| 0 <= j < i ==> shape_buf@[j] == dims[j],
                forall|j: int| 0 <= j < i ==> stride_buf@[j] == strides[j],
        {
            shape_buf.push(ds[i]);
            stride_buf.push(ss[i]);
        }
        for i in 0..m
            invariant
                pos <= n,
                n == dims.len(),
                n == strides.len(),
                m == sub@.len(),
                ds@ == dims,
                ss@ == strides,
                shape_buf@.len() == pos + i,
                stride_buf@.len() == pos + i,
                forall|j: int| 0 <= j < pos ==> shape_buf@[j] == dims[j],
                forall|j: int| 0 <= j < pos ==> stride_buf@[j] == strides[j],
                forall|j: int| 0 <= j < i ==> shape_buf@[pos + j] == sub@[j],
                forall|j: int| 0 <= j < i ==> #[trigger] stride_buf@[pos + j] == 0,
        {
            shape_buf.push(sub[i]);
            stride_buf.push(0);
        }
        for i in pos..n
            invariant
                pos <= n,
                n == dims.len(),
                n == strides.len(),
                m == sub@.len(),
                ds@ == dims,
                ss@ == strides,
                shape_buf@.len() == m + i,
                stride_buf@.len() == m + i,
                forall|j: int| 0 <= j < pos ==> shape_buf@[j] == dims[j],
                forall|j: int| 0 <= j < pos ==> stride_buf@[j] == strides[j],
                forall|j: int| 0 <= j < m ==> shape_buf@[pos + j] == sub@[j],
                forall|j: int| 0 <= j < m ==> #[trigger] stride_buf@[pos + j] == 0,
                forall|j: int| pos <= j < i ==> shape_buf@[m + j] == dims[j],
                forall|j: int| pos <= j < i ==> stride_buf@[m + j] == strides[j],
        {
            shape_buf.push(ds[i]);
            stride_buf.push(ss[i]);
        }
        proof {
            assert forall|k: int| 0 <= k < newdims.len() implies shape_buf@[k] == newdims[k]
                && stride_buf@[k] == newstrides[k] by {
                if pos <= k < pos + m {
                    assert(shape_buf@[pos + (k - pos)] == sub@[k - pos]);
                    assert(stride_buf@[pos + (k - pos)] == 0);
                }
            }
            assert(shape_buf@ =~= newdims);
            assert(stride_buf@ =~= newstrides);
        }
        let new_shape = Shape::from_slice(shape_buf.as_slice());
        let new_stride = Stride::from_slice(stride_buf.as_slice());
        proof {
            let zeros = Seq::new(sub@.len(), |i: int| 0usize);
            assert forall|p: Seq<Unit>| #[trigger] coords_in_bounds(p, newdims) implies
                coords_in_bounds(
                    p.subrange(0, pos as int) + p.subrange(pos + sub@.len(), p.len() as int),
                    dims,
                ) && dot(p, newstrides) == dot(
                    p.subrange(0, pos as int) + p.subrange(pos + sub@.len(), p.len() as int),
                    strides,
                ) by {
                let p1 = p.subrange(0, pos as int);
                let p2 = p.subrange(pos as int, (pos + sub@.len()) as int);
                let p3 = p.subrange(pos + sub@.len(), p.len() as int);
                assert(p =~= (p1 + p2) + p3);
                let s1 = strides.subrange(0, pos as int);
                let s3 = strides.subrange(pos as int, strides.len() as int);
                assert(newstrides =~= (s1 + zeros) + s3);
                lemma_dot_concat(p1 + p2, p3, s1 + zeros, s3);
                lemma_dot_concat(p1, p2, s1, zeros);
                lemma_dot_zero_stride(p2, zeros);
                assert(coords_in_bounds(p1 + p3, dims)) by {
                    assert(forall|j: int|
                        0 <= j < pos ==> (p1 + p3)[j] == p[j] && dims[j] == newdims[j]);
                    assert(forall|j: int|
                        pos <= j < dims.len() ==> (p1 + p3)[j] == p[j + sub@.len()] && dims[j]
                            == newdims[j + sub@.len()]);
                }
                lemma_dot_concat(p1, p3, s1, s3);
                assert(strides =~= s1 + s3);
            }
        }
        Array {
            stride: new_stride,
            shape: new_shape,
            data: clone_buffer(&self.data),
            offset: self.offset,
        }
    }

    /// A lazy walk over the view's elements in row-major order.
    pub fn iter_units(&self) -> (r: EngineTensorUnitIterator)
        requires
            self.valid(),
            forall|i: int| 0 <= i < self.dims().len() ==> self.dims()[i] >= 1,
        ensures
            r.wf(),
            r.src() == *self,
            r.index() == 0,
    {
        EngineTensorUnitIterator::new(self)
    }

    /// Relabels the same elements under a new shape of equal element count:
    /// zero-copy when the view is contiguous, otherwise through a fresh
    /// buffer. A shape of a different element count is rejected.
    pub fn reshape(&self, shape: &Shape) -> (r: Result<Array, EngineError>)
        requires
            self.valid(),
            dims_bounded(shape@),
        ensures
            r is Ok <==> seq_prod(shape@) == seq_prod(self.dims()),
            r matches Ok(t) ==> t.valid() && t.dims() == shape@ && t.contents() == self.contents(),
            r matches Err(e) ==> e matches EngineError::ShapeMismatch(a, b) && a@ == self.dims()
                && b@ == shape@,
    {
        let ghost olddims = self.dims();
        let ghost newdims = shape@;
        proof {
            lemma_dims_bounded_total(olddims);
            lemma_dims_bounded_total(newdims);
        }
        if shape.elements() == self.shape.elements() {
            if self.is_contiguous() {
                let new_stride = Stride::default_from_shape(shape);
                proof {
                    // the old view is a dense block: its last element pins
                    // the buffer space the relabeled view may touch
                    assert forall|p: Seq<Unit>| #[trigger] coords_in_bounds(p, newdims) implies
                        self.off() + dot(p, new_stride@) < self.buf().len() by {
                        lemma_dot_default_stride(p, newdims, new_stride@);
                        lemma_rank_bound(p, newdims);
                        lemma_prod_pos(newdims);
                        assert forall|j: int| 0 <= j < olddims.len() implies olddims[j] >= 1 by {
                            if olddims[j] == 0 {
                                crate::coords::lemma_prod_zero(olddims, j);
                            }
                        }
                        let top = Seq::new(
                            olddims.len(),
                            |i: int| (olddims[i] - 1) as usize,
                        );
                        lemma_rank_last_coord(olddims);
                        assert(coords_in_bounds(top, olddims));
                        lemma_dot_default_stride(top, olddims, self.strides());
                        assert(self.off() + dot(top, self.strides()) < self.buf().len());
                    }
                }
                let out = Array {
                    stride: new_stride,
                    shape: shape.clone(),
                    data: clone_buffer(&self.data),
                    offset: self.offset,
                };
                proof {
                    assert(out.contents() =~= self.contents()) by {
                        assert forall|k: int| 0 <= k < seq_prod(newdims) implies out.contents()[k]
                            == self.contents()[k] by {
                            lemma_lin_default_identity(newdims, out.strides(), k as nat);
                            lemma_lin_default_identity(olddims, self.strides(), k as nat);
                        }
                    }
                }
                Ok(out)
            } else {
                let n = self.shape.elements();
                let mut buf: Vec<i64> = Vec::new();
                for k in 0..n
                    invariant
                        self.valid(),
                        n == seq_prod(self.dims()),
                        buf@.len() == k,
                        forall|j: int| 0 <= j < k ==> buf@[j] == self.contents()[j],
                {
                    buf.push(self.element(k));
                }
                proof {
                    assert(buf@ =~= self.contents());
                }
                Ok(Array::from_vec(buf, shape.clone()))
            }
        } else {
            Err(EngineError::ShapeMismatch(self.shape.clone(), shape.clone()))
        }
    }

    /// Structural equality: same shape and pointwise-equal elements, however
    /// each view arranges them internally.
    pub fn equals(&self, other: &Array) -> (r: bool)
        requires
            self.valid(),
            other.valid(),
        ensures
            r <==> (self.dims() == other.dims() && self.contents() == other.contents()),
    {
        proof {
            lemma_dims_bounded_total(self.dims());
        }
        if !(self.shape == other.shape) {
            return false;
        }
        let n = self.shape.elements();
        for k in 0..n
            invariant
                self.valid(),
                other.valid(),
                self.dims() == other.dims(),
                n == seq_prod(self.dims()),
                forall|j: int| 0 <= j < k ==> self.contents()[j] == other.contents()[j],
        {
            if self.element(k) != other.element(k) {
                proof {
                    assert(self.contents() !~= other.contents());
                }
                return false;
            }
        }
        proof {
            assert(self.contents() =~= other.contents());
        }
        true
    }
}

/// Walks a view's elements in row-major order, advancing a cursor
/// coordinate from the first to the last.
pub struct EngineTensorUnitIterator<'a> {
    tensor: &'a Array,
    curr: Position,
    finish: Position,
    ended: bool,
}

impl<'a> EngineTensorUnitIterator<'a> {
    pub closed spec fn src(&self) -> Array {
        *self.tensor
    }

    /// How many elements were already handed out.
    pub closed spec fn index(&self) -> nat {
        if self.ended {
            seq_prod(self.tensor.dims())
        } else {
            rank_of(self.curr@, self.tensor.dims())
        }
    }

    pub closed spec fn wf(&self) -> bool {
        &&& self.tensor.valid()
        &&& forall|i: int| 0 <= i < self.tensor.dims().len() ==> self.tensor.dims()[i] >= 1
        &&& self.ended || coords_in_bounds(self.curr@, self.tensor.dims())
        &&& self.finish@ == Seq::new(
            self.tensor.dims().len(),
            |i: int| (self.tensor.dims()[i] - 1) as usize,
        )
    }

    pub fn new(tensor: &'a Array) -> (r: EngineTensorUnitIterator<'a>)
        requires
            tensor.valid(),
            forall|i: int| 0 <= i < tensor.dims().len() ==> tensor.dims()[i] >= 1,
        ensures
            r.wf(),
            r.src() == *tensor,
            r.index() == 0,
    {
        let curr = tensor.shape.first();
        let finish = tensor.shape.last();
        proof {
            crate::coords::lemma_rank_zero(curr@, tensor.dims());
            assert(finish@ =~= Seq::new(
                tensor.dims().len(),
                |i: int| (tensor.dims()[i] - 1) as usize,
            ));
        }
        EngineTensorUnitIterator { tensor, curr, finish, ended: false }
    }

    /// Yields the next element in row-major order, `None` once all have
    /// been seen.
    pub fn next(&mut self) -> (r: Option<i64>)
        requires
            old(self).wf(),
        ensures
            final(self).wf(),
            final(self).src() == old(self).src(),
            old(self).index() < seq_prod(old(self).src().dims()) ==> r == Some(
                old(self).src().contents()[old(self).index() as int],
            ) && final(self).index() == old(self).index() + 1,
            old(self).index() >= seq_prod(old(self).src().dims()) ==> r is None
                && final(self).index() == old(self).index(),
    {
        let ghost dims = self.tensor.dims();
        if self.ended {
            None
        } else {
            proof {
                lemma_rank_bound(self.curr@, dims);
                lemma_prod_pos(dims);
            }
            let out = self.tensor.get(&self.curr);
            if self.curr == self.finish {
                self.ended = true;
                proof {
                    lemma_rank_last_coord(dims);
                    let top = Seq::new(dims.len(), |i: int| (dims[i] - 1) as usize);
                    assert(self.curr@ =~= top);
                }
            } else {
                proof {
                    lemma_rank_last_coord(dims);
                    let top = Seq::new(dims.len(), |i: int| (dims[i] - 1) as usize);
                    assert(coords_in_bounds(top, dims));
                    if rank_of(self.curr@, dims) + 1 == seq_prod(dims) {
                        lemma_rank_injective(self.curr@, top, dims);
                        assert(self.curr@ =~= self.finish@);
                        assert(false);
                    }
                    lemma_dims_bounded_total(dims);
                }
                let res = self.curr.incdec_mut(&self.tensor.shape, 1);
                proof {
                    assert(res is Ok);
                }
            }
            Some(out)
        }
    }
}

} // verus!
