use vstd::prelude::*;

verus! {

/// Largest element count a tensor shape may describe. Keeping products of
/// dimension sizes at or below this bound leaves room for the signed
/// arithmetic that coordinate stepping performs.
pub const MAX_ELEMS: u64 = 0x2000_0000_0000_0000;

/// Product of all dimension sizes: how many coordinates the bounds admit.
pub open spec fn seq_prod(dims: Seq<usize>) -> nat
    decreases dims.len(),
{
    if dims.len() == 0 {
        1
    } else {
        seq_prod(dims.drop_last()) * (dims.last() as nat)
    }
}

/// The coordinate lies strictly inside the bounds, dimension by dimension.
pub open spec fn coords_in_bounds(pos: Seq<usize>, dims: Seq<usize>) -> bool {
    pos.len() == dims.len() && forall|i: int| 0 <= i < dims.len() ==> pos[i] < dims[i]
}

/// Row-major rank of a coordinate: its index in the enumeration that walks
/// the rightmost dimension fastest.
pub open spec fn rank_of(pos: Seq<usize>, dims: Seq<usize>) -> nat
    decreases dims.len(),
{
    if dims.len() == 0 || pos.len() == 0 {
        0
    } else {
        rank_of(pos.drop_last(), dims.drop_last()) * (dims.last() as nat) + (pos.last() as nat)
    }
}

/// Dot product of a coordinate with a stride vector.
pub open spec fn dot(pos: Seq<usize>, stride: Seq<usize>) -> nat
    decreases pos.len(),
{
    if pos.len() == 0 || stride.len() == 0 {
        0
    } else {
        dot(pos.drop_last(), stride.drop_last()) + (pos.last() as nat) * (stride.last() as nat)
    }
}

/// Buffer offset of the k-th element in row-major order, peeled digit by
/// digit from the rightmost dimension; mirrors how executable code unranks.
pub open spec fn lin_index(dims: Seq<usize>, stride: Seq<usize>, k: nat) -> nat
    decreases dims.len(),
{
    if dims.len() == 0 || stride.len() == 0 {
        0
    } else {
        (k % (dims.last() as nat)) * (stride.last() as nat) + lin_index(
            dims.drop_last(),
            stride.drop_last(),
            k / (dims.last() as nat),
        )
    }
}

/// A coordinate moved by per-dimension offsets (used for slicing).
pub open spec fn shifted(pos: Seq<usize>, starts: Seq<usize>) -> Seq<usize> {
    Seq::new(pos.len(), |i: int| (pos[i] + starts[i]) as usize)
}

pub proof fn lemma_rank_bound(pos: Seq<usize>, dims: Seq<usize>)
    requires
        coords_in_bounds(pos, dims),
    ensures
        rank_of(pos, dims) < seq_prod(dims),
    decreases dims.len(),
{
    if dims.len() == 0 {
    } else {
        assert(coords_in_bounds(pos.drop_last(), dims.drop_last()));
        lemma_rank_bound(pos.drop_last(), dims.drop_last());
        let r = rank_of(pos.drop_last(), dims.drop_last());
        let p = seq_prod(dims.drop_last());
        let d = dims.last() as nat;
        assert(r * d + pos.last() < p * d) by (nonlinear_arith)
            requires
                r < p,
                (pos.last() as nat) < d,
        ;
    }
}

pub proof fn lemma_lin_of_rank(pos: Seq<usize>, dims: Seq<usize>, stride: Seq<usize>)
    requires
        coords_in_bounds(pos, dims),
        stride.len() == dims.len(),
    ensures
        lin_index(dims, stride, rank_of(pos, dims)) == dot(pos, stride),
    decreases dims.len(),
{
    if dims.len() == 0 {
    } else {
        let d = dims.last() as nat;
        let k = rank_of(pos, dims);
        let r = rank_of(pos.drop_last(), dims.drop_last());
        assert(k == r * d + pos.last());
        vstd::arithmetic::div_mod::lemma_fundamental_div_mod_converse(
            k as int,
            d as int,
            r as int,
            pos.last() as int,
        );
        assert(k % d == pos.last() as nat);
        assert(k / d == r);
        assert(coords_in_bounds(pos.drop_last(), dims.drop_last()));
        lemma_lin_of_rank(pos.drop_last(), dims.drop_last(), stride.drop_last());
    }
}

pub proof fn lemma_rank_injective(pos1: Seq<usize>, pos2: Seq<usize>, dims: Seq<usize>)
    requires
        coords_in_bounds(pos1, dims),
        coords_in_bounds(pos2, dims),
        rank_of(pos1, dims) == rank_of(pos2, dims),
    ensures
        pos1 == pos2,
    decreases dims.len(),
{
    if dims.len() == 0 {
        assert(pos1 =~= pos2);
    } else {
        let d = dims.last() as nat;
        let r1 = rank_of(pos1.drop_last(), dims.drop_last());
        let r2 = rank_of(pos2.drop_last(), dims.drop_last());
        let k = rank_of(pos1, dims);
        vstd::arithmetic::div_mod::lemma_fundamental_div_mod_converse(
            k as int,
            d as int,
            r1 as int,
            pos1.last() as int,
        );
        vstd::arithmetic::div_mod::lemma_fundamental_div_mod_converse(
            k as int,
            d as int,
            r2 as int,
            pos2.last() as int,
        );
        assert(pos1.last() == pos2.last());
        assert(coords_in_bounds(pos1.drop_last(), dims.drop_last()));
        assert(coords_in_bounds(pos2.drop_last(), dims.drop_last()));
        lemma_rank_injective(pos1.drop_last(), pos2.drop_last(), dims.drop_last());
        assert(pos1 =~= pos1.drop_last().push(pos1.last()));
        assert(pos2 =~= pos2.drop_last().push(pos2.last()));
        assert(pos1 =~= pos2);
    }
}

pub proof fn lemma_prod_first(dims: Seq<usize>)
    requires
        dims.len() > 0,
    ensures
        seq_prod(dims) == dims.first() * seq_prod(dims.drop_first()),
    decreases dims.len(),
{
    if dims.len() == 1 {
        assert(dims.drop_first() =~= Seq::<usize>::empty());
        assert(dims.drop_last() =~= Seq::<usize>::empty());
        assert(seq_prod(dims.drop_first()) == 1);
        assert(seq_prod(dims) == 1 * (dims.last() as nat));
        assert(dims.first() == dims.last());
        assert(seq_prod(dims) == dims.first() * seq_prod(dims.drop_first()));
    } else {
        lemma_prod_first(dims.drop_last());
        assert(dims.drop_last().drop_first() =~= dims.drop_first().drop_last());
        assert(dims.drop_last().first() == dims.first());
        assert(dims.drop_first().last() == dims.last());
        let a = dims.first() as nat;
        let b = seq_prod(dims.drop_first().drop_last());
        let c = dims.last() as nat;
        assert(seq_prod(dims) == seq_prod(dims.drop_last()) * c);
        assert(seq_prod(dims.drop_last()) == a * b);
        assert(seq_prod(dims.drop_first()) == b * c);
        assert((a * b) * c == a * (b * c)) by (nonlinear_arith);
        assert(seq_prod(dims) == a * seq_prod(dims.drop_first()));
    }
}

pub proof fn lemma_rank_first(pos: Seq<usize>, dims: Seq<usize>)
    requires
        pos.len() == dims.len(),
        dims.len() > 0,
    ensures
        rank_of(pos, dims) == pos.first() * seq_prod(dims.drop_first()) + rank_of(
            pos.drop_first(),
            dims.drop_first(),
        ),
    decreases dims.len(),
{
    if dims.len() == 1 {
        assert(pos.drop_first() =~= Seq::<usize>::empty());
        assert(pos.drop_last() =~= Seq::<usize>::empty());
        assert(seq_prod(dims.drop_first()) == 1);
        assert(rank_of(pos.drop_first(), dims.drop_first()) == 0);
        assert(rank_of(pos.drop_last(), dims.drop_last()) == 0);
        assert(rank_of(pos.drop_last(), dims.drop_last()) * (dims.last() as nat) == 0)
            by (nonlinear_arith)
            requires
                rank_of(pos.drop_last(), dims.drop_last()) == 0,
        ;
        assert(rank_of(pos, dims) == pos.last() as nat);
        assert(pos.first() == pos.last());
        assert(rank_of(pos, dims) == pos.first() * seq_prod(dims.drop_first()) + rank_of(
            pos.drop_first(),
            dims.drop_first(),
        ));
    } else {
        lemma_rank_first(pos.drop_last(), dims.drop_last());
        lemma_prod_first(dims.drop_last());
        assert(pos.drop_last().drop_first() =~= pos.drop_first().drop_last());
        assert(dims.drop_last().drop_first() =~= dims.drop_first().drop_last());
        let p0 = pos.first() as nat;
        let q = seq_prod(dims.drop_first().drop_last());
        let c = dims.last() as nat;
        let rr = rank_of(pos.drop_first().drop_last(), dims.drop_first().drop_last());
        assert(rank_of(pos.drop_last(), dims.drop_last()) == p0 * q + rr);
        assert(rank_of(pos, dims) == (p0 * q + rr) * c + pos.last());
        assert((p0 * q + rr) * c == p0 * (q * c) + rr * c) by (nonlinear_arith);
        assert(seq_prod(dims.drop_first()) == q * c);
        assert(rank_of(pos.drop_first(), dims.drop_first()) == rr * c + pos.last());
        assert(rank_of(pos, dims) == p0 * seq_prod(dims.drop_first()) + rank_of(
            pos.drop_first(),
            dims.drop_first(),
        ));
    }
}

pub proof fn lemma_dot_first(pos: Seq<usize>, stride: Seq<usize>)
    requires
        pos.len() == stride.len(),
        pos.len() > 0,
    ensures
        dot(pos, stride) == pos.first() * stride.first() + dot(
            pos.drop_first(),
            stride.drop_first(),
        ),
    decreases pos.len(),
{
    if pos.len() == 1 {
        assert(pos.drop_first() =~= Seq::<usize>::empty());
        assert(pos.drop_last() =~= Seq::<usize>::empty());
        assert(dot(pos.drop_first(), stride.drop_first()) == 0);
        assert(dot(pos.drop_last(), stride.drop_last()) == 0);
        assert(dot(pos, stride) == (pos.last() as nat) * (stride.last() as nat));
        assert(pos.first() == pos.last() && stride.first() == stride.last());
        assert(dot(pos, stride) == pos.first() * stride.first() + dot(
            pos.drop_first(),
            stride.drop_first(),
        ));
    } else {
        lemma_dot_first(pos.drop_last(), stride.drop_last());
        assert(pos.drop_last().drop_first() =~= pos.drop_first().drop_last());
        assert(stride.drop_last().drop_first() =~= stride.drop_first().drop_last());
        assert(pos.drop_last().first() == pos.first());
        assert(stride.drop_last().first() == stride.first());
        assert(dot(pos, stride) == dot(pos.drop_last(), stride.drop_last()) + (pos.last() as nat)
            * (stride.last() as nat));
        assert(dot(pos.drop_first(), stride.drop_first()) == dot(
            pos.drop_first().drop_last(),
            stride.drop_first().drop_last(),
        ) + (pos.last() as nat) * (stride.last() as nat));
        assert(dot(pos, stride) == pos.first() * stride.first() + dot(
            pos.drop_first(),
            stride.drop_first(),
        ));
    }
}

/// A stride vector whose every entry is the product of the dimension sizes to
/// its right turns the dot product into the row-major rank.
pub proof fn lemma_dot_default_stride(pos: Seq<usize>, dims: Seq<usize>, stride: Seq<usize>)
    requires
        pos.len() == dims.len(),
        stride.len() == dims.len(),
        forall|i: int| 0 <= i < dims.len() ==> stride[i] == seq_prod(dims.subrange(i + 1, dims.len() as int)),
    ensures
        dot(pos, stride) == rank_of(pos, dims),
    decreases dims.len(),
{
    if dims.len() == 0 {
    } else {
        lemma_dot_first(pos, stride);
        lemma_rank_first(pos, dims);
        assert(dims.subrange(1, dims.len() as int) =~= dims.drop_first());
        assert(stride.first() == seq_prod(dims.drop_first()));
        assert forall|i: int| 0 <= i < dims.drop_first().len() implies stride.drop_first()[i]
            == seq_prod(dims.drop_first().subrange(i + 1, dims.drop_first().len() as int)) by {
            assert(dims.drop_first().subrange(i + 1, dims.drop_first().len() as int) =~= dims
                .subrange(i + 2, dims.len() as int));
        }
        lemma_dot_default_stride(pos.drop_first(), dims.drop_first(), stride.drop_first());
    }
}

/// Dot product over a shifted coordinate splits into the two dot products.
pub proof fn lemma_dot_shifted(pos: Seq<usize>, starts: Seq<usize>, stride: Seq<usize>)
    requires
        pos.len() == starts.len(),
        stride.len() == pos.len(),
        forall|i: int| 0 <= i < pos.len() ==> pos[i] + starts[i] <= usize::MAX,
    ensures
        dot(shifted(pos, starts), stride) == dot(pos, stride) + dot(starts, stride),
    decreases pos.len(),
{
    if pos.len() == 0 {
    } else {
        assert(shifted(pos, starts).drop_last() =~= shifted(pos.drop_last(), starts.drop_last()));
        assert(shifted(pos, starts).last() == pos.last() + starts.last());
        lemma_dot_shifted(pos.drop_last(), starts.drop_last(), stride.drop_last());
        let a = pos.last() as nat;
        let b = starts.last() as nat;
        let s = stride.last() as nat;
        assert((a + b) * s == a * s + b * s) by (nonlinear_arith);
    }
}

/// Dot product of concatenations, piecewise.
pub proof fn lemma_dot_concat(p1: Seq<usize>, p2: Seq<usize>, s1: Seq<usize>, s2: Seq<usize>)
    requires
        p1.len() == s1.len(),
        p2.len() == s2.len(),
    ensures
        dot(p1 + p2, s1 + s2) == dot(p1, s1) + dot(p2, s2),
    decreases p2.len(),
{
    if p2.len() == 0 {
        assert(p1 + p2 =~= p1);
        assert(s1 + s2 =~= s1);
    } else {
        assert((p1 + p2).drop_last() =~= p1 + p2.drop_last());
        assert((s1 + s2).drop_last() =~= s1 + s2.drop_last());
        assert((p1 + p2).last() == p2.last());
        assert((s1 + s2).last() == s2.last());
        lemma_dot_concat(p1, p2.drop_last(), s1, s2.drop_last());
    }
}

/// Product of concatenated dimension lists.
pub proof fn lemma_prod_concat(d1: Seq<usize>, d2: Seq<usize>)
    ensures
        seq_prod(d1 + d2) == seq_prod(d1) * seq_prod(d2),
    decreases d2.len(),
{
    if d2.len() == 0 {
        assert(d1 + d2 =~= d1);
        assert(seq_prod(d2) == 1);
        assert(seq_prod(d1 + d2) == seq_prod(d1) * seq_prod(d2));
    } else {
        assert((d1 + d2).drop_last() =~= d1 + d2.drop_last());
        assert((d1 + d2).last() == d2.last());
        lemma_prod_concat(d1, d2.drop_last());
        let a = seq_prod(d1);
        let b = seq_prod(d2.drop_last());
        let c = d2.last() as nat;
        assert(seq_prod(d1 + d2) == (a * b) * c);
        assert((a * b) * c == a * (b * c)) by (nonlinear_arith);
        assert(seq_prod(d2) == b * c);
        assert(seq_prod(d1 + d2) == seq_prod(d1) * seq_prod(d2));
    }
}

/// The all-greatest coordinate has the greatest rank.
pub proof fn lemma_rank_last_coord(dims: Seq<usize>)
    requires
        forall|i: int| 0 <= i < dims.len() ==> dims[i] >= 1,
    ensures
        rank_of(Seq::new(dims.len(), |i: int| (dims[i] - 1) as usize), dims) + 1 == seq_prod(dims),
    decreases dims.len(),
{
    let pos = Seq::new(dims.len(), |i: int| (dims[i] - 1) as usize);
    if dims.len() == 0 {
    } else {
        assert(pos.drop_last() =~= Seq::new(
            dims.drop_last().len(),
            |i: int| (dims.drop_last()[i] - 1) as usize,
        ));
        lemma_rank_last_coord(dims.drop_last());
        let p = seq_prod(dims.drop_last());
        let d = dims.last() as nat;
        assert(p >= 1 ==> (p - 1) * d + (d - 1) + 1 == p * d) by (nonlinear_arith);
        lemma_prod_pos(dims.drop_last());
    }
}

/// Products of all-positive dimension lists are positive.
pub proof fn lemma_prod_pos(dims: Seq<usize>)
    requires
        forall|i: int| 0 <= i < dims.len() ==> dims[i] >= 1,
    ensures
        seq_prod(dims) >= 1,
    decreases dims.len(),
{
    if dims.len() == 0 {
    } else {
        lemma_prod_pos(dims.drop_last());
        let p = seq_prod(dims.drop_last());
        let d = dims.last() as nat;
        assert(p >= 1 && d >= 1 ==> p * d >= 1) by (nonlinear_arith);
    }
}

/// A dimension of size zero forces the whole product to zero, so no
/// coordinate is in bounds.
pub proof fn lemma_prod_zero(dims: Seq<usize>, j: int)
    requires
        0 <= j < dims.len(),
        dims[j] == 0,
    ensures
        seq_prod(dims) == 0,
    decreases dims.len(),
{
    let p = seq_prod(dims.drop_last());
    let d = dims.last() as nat;
    assert(seq_prod(dims) == p * d);
    if j == dims.len() - 1 {
        assert(p * d == 0) by (nonlinear_arith)
            requires
                d == 0,
        ;
    } else {
        lemma_prod_zero(dims.drop_last(), j);
        assert(p * d == 0) by (nonlinear_arith)
            requires
                p == 0,
        ;
    }
}

/// Dot products over longer prefixes only grow.
pub proof fn lemma_dot_prefix_le(pos: Seq<usize>, stride: Seq<usize>, i: int)
    requires
        pos.len() == stride.len(),
        0 <= i <= pos.len(),
    ensures
        dot(pos.subrange(0, i), stride.subrange(0, i)) <= dot(pos, stride),
    decreases pos.len() - i,
{
    if i == pos.len() {
        assert(pos.subrange(0, i) =~= pos);
        assert(stride.subrange(0, i) =~= stride);
    } else {
        lemma_dot_prefix_le(pos, stride, i + 1);
        assert(pos.subrange(0, i + 1).drop_last() =~= pos.subrange(0, i));
        assert(stride.subrange(0, i + 1).drop_last() =~= stride.subrange(0, i));
        assert(dot(pos.subrange(0, i + 1), stride.subrange(0, i + 1)) == dot(
            pos.subrange(0, i),
            stride.subrange(0, i),
        ) + (pos.subrange(0, i + 1).last() as nat) * (stride.subrange(0, i + 1).last() as nat));
    }
}

/// With every dimension positive, the product of any contiguous stretch is at
/// most the product of the whole list.
pub proof fn lemma_prod_subrange_le(dims: Seq<usize>, i: int, j: int)
    requires
        0 <= i <= j <= dims.len(),
        forall|k: int| 0 <= k < dims.len() ==> dims[k] >= 1,
    ensures
        seq_prod(dims.subrange(i, j)) <= seq_prod(dims),
        seq_prod(dims.subrange(i, j)) >= 1,
{
    let pre = dims.subrange(0, i);
    let mid = dims.subrange(i, j);
    let post = dims.subrange(j, dims.len() as int);
    assert(dims =~= (pre + mid) + post);
    lemma_prod_concat(pre + mid, post);
    lemma_prod_concat(pre, mid);
    assert(forall|k: int| 0 <= k < pre.len() ==> pre[k] >= 1);
    assert(forall|k: int| 0 <= k < mid.len() ==> mid[k] >= 1);
    assert(forall|k: int| 0 <= k < post.len() ==> post[k] >= 1);
    lemma_prod_pos(pre);
    lemma_prod_pos(mid);
    lemma_prod_pos(post);
    let a = seq_prod(pre);
    let b = seq_prod(mid);
    let c = seq_prod(post);
    assert(b <= (a * b) * c) by (nonlinear_arith)
        requires
            a >= 1,
            b >= 1,
            c >= 1,
    ;
}

/// The all-zero coordinate ranks first.
pub proof fn lemma_rank_zero(pos: Seq<usize>, dims: Seq<usize>)
    requires
        pos.len() == dims.len(),
        forall|i: int| 0 <= i < pos.len() ==> pos[i] == 0,
    ensures
        rank_of(pos, dims) == 0,
    decreases dims.len(),
{
    if dims.len() == 0 {
    } else {
        lemma_rank_zero(pos.drop_last(), dims.drop_last());
        let d = dims.last() as nat;
        assert(rank_of(pos, dims) == 0 * d + 0);
        assert(0 * d == 0) by (nonlinear_arith);
    }
}

/// Every rank below the element count is taken by some in-bounds coordinate.
pub proof fn lemma_unrank_exists(dims: Seq<usize>, k: nat)
    requires
        k < seq_prod(dims),
    ensures
        exists|pos: Seq<usize>|
            coords_in_bounds(pos, dims) && rank_of(pos, dims) == k,
    decreases dims.len(),
{
    if dims.len() == 0 {
        let pos = Seq::<usize>::empty();
        assert(coords_in_bounds(pos, dims) && rank_of(pos, dims) == k);
    } else {
        let d = dims.last() as nat;
        let p = seq_prod(dims.drop_last());
        assert(d >= 1) by (nonlinear_arith)
            requires
                p * d >= 1,
        ;
        vstd::arithmetic::div_mod::lemma_fundamental_div_mod(k as int, d as int);
        vstd::arithmetic::div_mod::lemma_mod_bound(k as int, d as int);
        let q = k / d;
        let r = k % d;
        assert(q < p) by (nonlinear_arith)
            requires
                k < p * d,
                k as int == (d as int) * (q as int) + r,
                0 <= r < d,
                d >= 1,
        ;
        lemma_unrank_exists(dims.drop_last(), q);
        let pre = choose|pre: Seq<usize>|
            coords_in_bounds(pre, dims.drop_last()) && rank_of(pre, dims.drop_last()) == q;
        let pos = pre.push((r as usize));
        assert(pos.drop_last() =~= pre);
        assert(coords_in_bounds(pos, dims));
        assert(rank_of(pos, dims) == q * d + r);
        assert(q * d == d * q) by (nonlinear_arith);
        assert(rank_of(pos, dims) == k);
    }
}

/// Under row-major strides the offset of the k-th element is k itself.
pub proof fn lemma_lin_default_identity(dims: Seq<usize>, stride: Seq<usize>, k: nat)
    requires
        stride.len() == dims.len(),
        forall|i: int|
            0 <= i < dims.len() ==> stride[i] == seq_prod(dims.subrange(i + 1, dims.len() as int)),
        k < seq_prod(dims),
    ensures
        lin_index(dims, stride, k) == k,
{
    lemma_unrank_exists(dims, k);
    let pos = choose|pos: Seq<usize>| coords_in_bounds(pos, dims) && rank_of(pos, dims) == k;
    lemma_lin_of_rank(pos, dims, stride);
    lemma_dot_default_stride(pos, dims, stride);
}

/// Pointwise-smaller dimension lists admit no more elements.
pub proof fn lemma_prod_pointwise_le(a: Seq<usize>, b: Seq<usize>)
    requires
        a.len() == b.len(),
        forall|i: int| 0 <= i < a.len() ==> a[i] <= b[i],
    ensures
        seq_prod(a) <= seq_prod(b),
    decreases a.len(),
{
    if a.len() == 0 {
    } else {
        lemma_prod_pointwise_le(a.drop_last(), b.drop_last());
        let pa = seq_prod(a.drop_last());
        let pb = seq_prod(b.drop_last());
        assert(pa * (a.last() as nat) <= pb * (b.last() as nat)) by (nonlinear_arith)
            requires
                pa <= pb,
                (a.last() as nat) <= (b.last() as nat),
        ;
    }
}

/// A stride of all zeros pins every coordinate to offset zero.
pub proof fn lemma_dot_zero_stride(pos: Seq<usize>, stride: Seq<usize>)
    requires
        forall|i: int| 0 <= i < stride.len() ==> stride[i] == 0,
    ensures
        dot(pos, stride) == 0,
    decreases pos.len(),
{
    if pos.len() == 0 || stride.len() == 0 {
    } else {
        lemma_dot_zero_stride(pos.drop_last(), stride.drop_last());
        assert((pos.last() as nat) * (stride.last() as nat) == 0) by (nonlinear_arith)
            requires
                stride.last() == 0,
        ;
    }
}

/// Every contiguous stretch of the dimension list has a representable
/// product: what shapes handed to views must satisfy.
pub open spec fn dims_bounded(dims: Seq<usize>) -> bool {
    forall|i: int|
        0 <= i <= dims.len() ==> (#[trigger] seq_prod(dims.subrange(i, dims.len() as int)))
            <= MAX_ELEMS && seq_prod(dims.subrange(i, dims.len() as int)) <= usize::MAX
}

/// The whole product of a bounded dimension list is itself bounded.
pub proof fn lemma_dims_bounded_total(dims: Seq<usize>)
    requires
        dims_bounded(dims),
    ensures
        seq_prod(dims) <= MAX_ELEMS,
        seq_prod(dims) <= usize::MAX,
{
    assert(dims.subrange(0, dims.len() as int) =~= dims);
    assert(seq_prod(dims.subrange(0, dims.len() as int)) <= MAX_ELEMS);
}

} // verus!
