use vstd::prelude::*;

use crate::coords::{lemma_dims_bounded_total, seq_prod};
use crate::shape::Shape;
use crate::tensor::Array;

verus! {

/// What a numeric kernel can report: operands whose shapes or ranks do not
/// line up, or arithmetic the element kind cannot carry out.
#[derive(Debug)]
pub enum EngineError {
    ShapeMismatch(Shape, Shape),
    DimensionMismatch(usize, usize),
    NotEnoughDimensions(usize, usize),
    NumDimensionsMismatch(usize, usize),
    DivisionByZero(),
    OperationUnsupportedForType(),
}

/// Hands `out` through when the two shapes agree, else their mismatch.
pub fn return_if_matched_shape<T>(a: &Shape, b: &Shape, out: T) -> (r: Result<T, EngineError>)
    ensures
        r is Ok <==> a@ == b@,
        r matches Ok(v) ==> v == out,
        r matches Err(e) ==> e matches EngineError::ShapeMismatch(x, y) && x@ == a@ && y@ == b@,
{
    if a == b {
        Ok(out)
    } else {
        Err(EngineError::ShapeMismatch(a.clone(), b.clone()))
    }
}

/// Errs unless the shape has exactly the expected rank.
pub fn err_if_incorrect_dimensions(a: &Shape, expected_dims: usize) -> (r: Result<
    (),
    EngineError,
>)
    ensures
        r is Ok <==> a@.len() == expected_dims,
        r matches Err(e) ==> e == EngineError::NumDimensionsMismatch(
            a@.len() as usize,
            expected_dims,
        ),
{
    let a_dims = a.len();
    if a_dims == expected_dims {
        Ok(())
    } else {
        Err(EngineError::NumDimensionsMismatch(a_dims, expected_dims))
    }
}

/// Errs unless the shape has at least the given rank.
pub fn err_if_too_few_dimensions(a: &Shape, min_dims: usize) -> (r: Result<(), EngineError>)
    ensures
        r is Ok <==> a@.len() >= min_dims,
        r matches Err(e) ==> e == EngineError::NotEnoughDimensions(a@.len() as usize, min_dims),
{
    let a_dims = a.len();
    if a_dims >= min_dims {
        Ok(())
    } else {
        Err(EngineError::NotEnoughDimensions(a_dims, min_dims))
    }
}

/// Errs unless the two dimension sizes agree.
pub fn err_if_dimension_mismatch(provided_dim: usize, expected_dim: usize) -> (r: Result<
    (),
    EngineError,
>)
    ensures
        r is Ok <==> provided_dim == expected_dim,
        r matches Err(e) ==> e == EngineError::DimensionMismatch(provided_dim, expected_dim),
{
    if provided_dim == expected_dim {
        Ok(())
    } else {
        Err(EngineError::DimensionMismatch(provided_dim, expected_dim))
    }
}

/// Absolute value with the machine's wrap at the signed minimum.
pub open spec fn wrap_abs(x: i64) -> i64 {
    if x == i64::MIN {
        i64::MIN
    } else if x < 0 {
        (-x) as i64
    } else {
        x
    }
}

/// Negation with the machine's wrap at the signed minimum.
pub open spec fn wrap_neg(x: i64) -> i64 {
    if x == i64::MIN {
        i64::MIN
    } else {
        (-x) as i64
    }
}

/// Truncated signed division with the machine's wrap at the signed minimum;
/// meaningful only for a non-zero divisor.
pub open spec fn wrap_div(x: i64, d: i64) -> i64 {
    match x.checked_div(d) {
        Some(q) => q,
        None => i64::MIN,
    }
}

fn abs_unit(x: i64) -> (r: i64)
    ensures
        r == wrap_abs(x),
{
    if x == i64::MIN {
        i64::MIN
    } else if x < 0 {
        -x
    } else {
        x
    }
}

fn neg_unit(x: i64) -> (r: i64)
    ensures
        r == wrap_neg(x),
{
    if x == i64::MIN {
        i64::MIN
    } else {
        -x
    }
}

fn div_unit(x: i64, d: i64) -> (r: i64)
    requires
        d != 0,
    ensures
        r == wrap_div(x, d),
{
    match x.checked_div(d) {
        Some(q) => q,
        None => i64::MIN,
    }
}

/// The basic engine: plain elementwise kernels over strided views, each
/// producing a fresh contiguous tensor.
#[derive(Debug)]
pub struct Basic {}

impl Basic {
    pub fn abs(a: &Array) -> (r: Result<Array, EngineError>)
        requires
            a.valid(),
        ensures
            r is Ok,
            r matches Ok(t) ==> t.valid() && t.dims() == a.dims() && forall|k: int|
                0 <= k < seq_prod(a.dims()) ==> t.contents()[k] == wrap_abs(a.contents()[k]),
    {
        proof {
            lemma_dims_bounded_total(a.dims());
        }
        let n = a.shape().elements();
        let mut buf: Vec<i64> = Vec::new();
        for k in 0..n
            invariant
                a.valid(),
                n == seq_prod(a.dims()),
                buf@.len() == k,
                forall|j: int| 0 <= j < k ==> buf@[j] == wrap_abs(a.contents()[j]),
        {
            buf.push(abs_unit(a.element(k)));
        }
        Ok(Array::from_vec(buf, a.shape().clone()))
    }

    pub fn neg(a: &Array) -> (r: Result<Array, EngineError>)
        requires
            a.valid(),
        ensures
            r is Ok,
            r matches Ok(t) ==> t.valid() && t.dims() == a.dims() && forall|k: int|
                0 <= k < seq_prod(a.dims()) ==> t.contents()[k] == wrap_neg(a.contents()[k]),
    {
        proof {
            lemma_dims_bounded_total(a.dims());
        }
        let n = a.shape().elements();
        let mut buf: Vec<i64> = Vec::new();
        for k in 0..n
            invariant
                a.valid(),
                n == seq_prod(a.dims()),
                buf@.len() == k,
                forall|j: int| 0 <= j < k ==> buf@[j] == wrap_neg(a.contents()[j]),
        {
            buf.push(neg_unit(a.element(k)));
        }
        Ok(Array::from_vec(buf, a.shape().clone()))
    }

    pub fn add_scalar(s: i64, a: &Array) -> (r: Result<Array, EngineError>)
        requires
            a.valid(),
        ensures
            r is Ok,
            r matches Ok(t) ==> t.valid() && t.dims() == a.dims() && forall|k: int|
                0 <= k < seq_prod(a.dims()) ==> t.contents()[k] == s.wrapping_add(
                    a.contents()[k],
                ),
    {
        proof {
            lemma_dims_bounded_total(a.dims());
        }
        let n = a.shape().elements();
        let mut buf: Vec<i64> = Vec::new();
        for k in 0..n
            invariant
                a.valid(),
                n == seq_prod(a.dims()),
                buf@.len() == k,
                forall|j: int| 0 <= j < k ==> buf@[j] == s.wrapping_add(a.contents()[j]),
        {
            buf.push(s.wrapping_add(a.element(k)));
        }
        Ok(Array::from_vec(buf, a.shape().clone()))
    }

    pub fn sub_scalar_lh(s: i64, a: &Array) -> (r: Result<Array, EngineError>)
        requires
            a.valid(),
        ensures
            r is Ok,
            r matches Ok(t) ==> t.valid() && t.dims() == a.dims() && forall|k: int|
                0 <= k < seq_prod(a.dims()) ==> t.contents()[k] == s.wrapping_sub(
                    a.contents()[k],
                ),
    {
        proof {
            lemma_dims_bounded_total(a.dims());
        }
        let n = a.shape().elements();
        let mut buf: Vec<i64> = Vec::new();
        for k in 0..n
            invariant
                a.valid(),
                n == seq_prod(a.dims()),
                buf@.len() == k,
                forall|j: int| 0 <= j < k ==> buf@[j] == s.wrapping_sub(a.contents()[j]),
        {
            buf.push(s.wrapping_sub(a.element(k)));
        }
        Ok(Array::from_vec(buf, a.shape().clone()))
    }

    pub fn sub_scalar_rh(a: &Array, s: i64) -> (r: Result<Array, EngineError>)
        requires
            a.valid(),
        ensures
            r is Ok,
            r matches Ok(t) ==> t.valid() && t.dims() == a.dims() && forall|k: int|
                0 <= k < seq_prod(a.dims()) ==> t.contents()[k] == a.contents()[k].wrapping_sub(
                    s,
                ),
    {
        proof {
            lemma_dims_bounded_total(a.dims());
        }
        let n = a.shape().elements();
        let mut buf: Vec<i64> = Vec::new();
        for k in 0..n
            invariant
                a.valid(),
                n == seq_prod(a.dims()),
                buf@.len() == k,
                forall|j: int| 0 <= j < k ==> buf@[j] == a.contents()[j].wrapping_sub(s),
        {
            buf.push(a.element(k).wrapping_sub(s));
        }
        Ok(Array::from_vec(buf, a.shape().clone()))
    }

    pub fn mul_scalar(s: i64, a: &Array) -> (r: Result<Array, EngineError>)
        requires
            a.valid(),
        ensures
            r is Ok,
            r matches Ok(t) ==> t.valid() && t.dims() == a.dims() && forall|k: int|
                0 <= k < seq_prod(a.dims()) ==> t.contents()[k] == s.wrapping_mul(
                    a.contents()[k],
                ),
    {
        proof {
            lemma_dims_bounded_total(a.dims());
        }
        let n = a.shape().elements();
        let mut buf: Vec<i64> = Vec::new();
        for k in 0..n
            invariant
                a.valid(),
                n == seq_prod(a.dims()),
                buf@.len() == k,
                forall|j: int| 0 <= j < k ==> buf@[j] == s.wrapping_mul(a.contents()[j]),
        {
            buf.push(s.wrapping_mul(a.element(k)));
        }
        Ok(Array::from_vec(buf, a.shape().clone()))
    }

    /// Divides the scalar by each element; any zero element is reported.
    pub fn div_scalar_lh(s: i64, a: &Array) -> (r: Result<Array, EngineError>)
        requires
            a.valid(),
        ensures
            r is Ok <==> forall|k: int| 0 <= k < seq_prod(a.dims()) ==> a.contents()[k] != 0,
            r matches Ok(t) ==> t.valid() && t.dims() == a.dims() && forall|k: int|
                0 <= k < seq_prod(a.dims()) ==> t.contents()[k] == wrap_div(s, a.contents()[k]),
            r matches Err(e) ==> e == EngineError::DivisionByZero(),
    {
        proof {
            lemma_dims_bounded_total(a.dims());
        }
        let n = a.shape().elements();
        let mut buf: Vec<i64> = Vec::new();
        for k in 0..n
            invariant
                a.valid(),
                n == seq_prod(a.dims()),
                buf@.len() == k,
                forall|j: int| 0 <= j < k ==> a.contents()[j] != 0,
                forall|j: int| 0 <= j < k ==> buf@[j] == wrap_div(s, a.contents()[j]),
        {
            let d = a.element(k);
            if d == 0 {
                return Err(EngineError::DivisionByZero());
            }
            buf.push(div_unit(s, d));
        }
        Ok(Array::from_vec(buf, a.shape().clone()))
    }

    /// Divides each element by the scalar, which must be non-zero.
    pub fn div_scalar_rh(a: &Array, s: i64) -> (r: Result<Array, EngineError>)
        requires
            a.valid(),
        ensures
            r is Ok <==> s != 0,
            r matches Ok(t) ==> t.valid() && t.dims() == a.dims() && forall|k: int|
                0 <= k < seq_prod(a.dims()) ==> t.contents()[k] == wrap_div(a.contents()[k], s),
            r matches Err(e) ==> e == EngineError::DivisionByZero(),
    {
        proof {
            lemma_dims_bounded_total(a.dims());
        }
        if s == 0 {
            return Err(EngineError::DivisionByZero());
        }
        let n = a.shape().elements();
        let mut buf: Vec<i64> = Vec::new();
        for k in 0..n
            invariant
                a.valid(),
                s != 0,
                n == seq_prod(a.dims()),
                buf@.len() == k,
                forall|j: int| 0 <= j < k ==> buf@[j] == wrap_div(a.contents()[j], s),
        {
            buf.push(div_unit(a.element(k), s));
        }
        Ok(Array::from_vec(buf, a.shape().clone()))
    }

    /// Elementwise sum; the shapes must match exactly.
    pub fn add(a: &Array, b: &Array) -> (r: Result<Array, EngineError>)
        requires
            a.valid(),
            b.valid(),
        ensures
            r is Ok <==> a.dims() == b.dims(),
            r matches Ok(t) ==> t.valid() && t.dims() == a.dims() && forall|k: int|
                0 <= k < seq_prod(a.dims()) ==> t.contents()[k] == a.contents()[k].wrapping_add(
                    b.contents()[k],
                ),
            r matches Err(e) ==> e matches EngineError::ShapeMismatch(x, y) && x@ == a.dims()
                && y@ == b.dims(),
    {
        proof {
            lemma_dims_bounded_total(a.dims());
        }
        if !(a.shape() == b.shape()) {
            return Err(EngineError::ShapeMismatch(a.shape().clone(), b.shape().clone()));
        }
        let n = a.shape().elements();
        let mut buf: Vec<i64> = Vec::new();
        for k in 0..n
            invariant
                a.valid(),
                b.valid(),
                a.dims() == b.dims(),
                n == seq_prod(a.dims()),
                buf@.len() == k,
                forall|j: int|
                    0 <= j < k ==> buf@[j] == a.contents()[j].wrapping_add(b.contents()[j]),
        {
            buf.push(a.element(k).wrapping_add(b.element(k)));
        }
        Ok(Array::from_vec(buf, a.shape().clone()))
    }

    /// Elementwise difference; the shapes must match exactly.
    pub fn sub(a: &Array, b: &Array) -> (r: Result<Array, EngineError>)
        requires
            a.valid(),
            b.valid(),
        ensures
            r is Ok <==> a.dims() == b.dims(),
            r matches Ok(t) ==> t.valid() && t.dims() == a.dims() && forall|k: int|
                0 <= k < seq_prod(a.dims()) ==> t.contents()[k] == a.contents()[k].wrapping_sub(
                    b.contents()[k],
                ),
            r matches Err(e) ==> e matches EngineError::ShapeMismatch(x, y) && x@ == a.dims()
                && y@ == b.dims(),
    {
        proof {
            lemma_dims_bounded_total(a.dims());
        }
        if !(a.shape() == b.shape()) {
            return Err(EngineError::ShapeMismatch(a.shape().clone(), b.shape().clone()));
        }
        let n = a.shape().elements();
        let mut buf: Vec<i64> = Vec::new();
        for k in 0..n
            invariant
                a.valid(),
                b.valid(),
                a.dims() == b.dims(),
                n == seq_prod(a.dims()),
                buf@.len() == k,
                forall|j: int|
                    0 <= j < k ==> buf@[j] == a.contents()[j].wrapping_sub(b.contents()[j]),
        {
            buf.push(a.element(k).wrapping_sub(b.element(k)));
        }
        Ok(Array::from_vec(buf, a.shape().clone()))
    }

    /// Elementwise product; the shapes must match exactly.
    pub fn mul(a: &Array, b: &Array) -> (r: Result<Array, EngineError>)
        requires
            a.valid(),
            b.valid(),
        ensures
            r is Ok <==> a.dims() == b.dims(),
            r matches Ok(t) ==> t.valid() && t.dims() == a.dims() && forall|k: int|
                0 <= k < seq_prod(a.dims()) ==> t.contents()[k] == a.contents()[k].wrapping_mul(
                    b.contents()[k],
                ),
            r matches Err(e) ==> e matches EngineError::ShapeMismatch(x, y) && x@ == a.dims()
                && y@ == b.dims(),
    {
        proof {
            lemma_dims_bounded_total(a.dims());
        }
        if !(a.shape() == b.shape()) {
            return Err(EngineError::ShapeMismatch(a.shape().clone(), b.shape().clone()));
        }
        let n = a.shape().elements();
        let mut buf: Vec<i64> = Vec::new();
        for k in 0..n
            invariant
                a.valid(),
                b.valid(),
                a.dims() == b.dims(),
                n == seq_prod(a.dims()),
                buf@.len() == k,
                forall|j: int|
                    0 <= j < k ==> buf@[j] == a.contents()[j].wrapping_mul(b.contents()[j]),
        {
            buf.push(a.element(k).wrapping_mul(b.element(k)));
        }
        Ok(Array::from_vec(buf, a.shape().clone()))
    }

    /// Elementwise quotient; the shapes must match exactly and every divisor
    /// element must be non-zero.
    pub fn div(a: &Array, b: &Array) -> (r: Result<Array, EngineError>)
        requires
            a.valid(),
            b.valid(),
        ensures
            r is Ok <==> a.dims() == b.dims() && forall|k: int|
                0 <= k < seq_prod(b.dims()) ==> b.contents()[k] != 0,
            r matches Ok(t) ==> t.valid() && t.dims() == a.dims() && forall|k: int|
                0 <= k < seq_prod(a.dims()) ==> t.contents()[k] == wrap_div(
                    a.contents()[k],
                    b.contents()[k],
                ),
            r matches Err(e) ==> (e matches EngineError::ShapeMismatch(x, y) && x@ == a.dims()
                && y@ == b.dims() && a.dims() != b.dims()) || (e == EngineError::DivisionByZero()
                && a.dims() == b.dims()),
    {
        proof {
            lemma_dims_bounded_total(a.dims());
        }
        if !(a.shape() == b.shape()) {
            return Err(EngineError::ShapeMismatch(a.shape().clone(), b.shape().clone()));
        }
        let n = a.shape().elements();
        let mut buf: Vec<i64> = Vec::new();
        for k in 0..n
            invariant
                a.valid(),
                b.valid(),
                a.dims() == b.dims(),
                n == seq_prod(a.dims()),
                buf@.len() == k,
                forall|j: int| 0 <= j < k ==> b.contents()[j] != 0,
                forall|j: int|
                    0 <= j < k ==> buf@[j] == wrap_div(a.contents()[j], b.contents()[j]),
        {
            let d = b.element(k);
            if d == 0 {
                return Err(EngineError::DivisionByZero());
            }
            buf.push(div_unit(a.element(k), d));
        }
        Ok(Array::from_vec(buf, a.shape().clone()))
    }
}

} // verus!
