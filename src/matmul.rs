//! Batched matrix multiplication: the last two axes of each operand are a
//! matrix, the leading axes are batch axes broadcast against each other.
use crate::array::{are_c_strides, coord_at, Array, ArrayError, lemma_stride_term};
use crate::broadcast::{
    broadcast_final_shape, broadcast_shape, broadcast_source, broadcastable,
    lemma_broadcast_expands, lemma_source_identity,
};
use crate::element::Element;
use crate::geometry::{
    fits_layout, lemma_ravel_in_range, lemma_ravel_injective,
    lemma_ravel_upto_prefix, lemma_suffix_prod_drop_last, lemma_suffix_prod_pos, ravel,
    ravel_upto, shape_prod, to_ints, valid_coord, valid_shape,
};
use vstd::layout::size_of;
use vstd::prelude::*;
use vstd::slice::slice_subrange;

verus! {

/// The leading (batch) axes of a shape of rank at least 2.
pub open spec fn batch_shape(shape: Seq<i32>) -> Seq<i32> {
    shape.subrange(0, shape.len() - 2)
}

/// Shape of the product: the broadcast batch axes, then the rows of `a` and
/// the columns of `b`.
pub open spec fn matmul_shape(a: Seq<i32>, b: Seq<i32>) -> Seq<i32> {
    broadcast_shape(batch_shape(a), batch_shape(b)).push(a[a.len() - 2]).push(b[b.len() - 1])
}

/// The coordinate of `arr` holding row `x`, column `y` of the matrix that
/// batch coordinate `bc` selects.
pub open spec fn matrix_coord(shape: Seq<i32>, bc: Seq<int>, x: int, y: int) -> Seq<int> {
    broadcast_source(batch_shape(shape), bc).push(x).push(y)
}

/// Wrapping sum, for `k` ascending below `kmax`, of `a[bc, i, k] * b[bc, k, j]`.
pub open spec fn matmul_cell<T: Element>(
    a: Array<T>,
    b: Array<T>,
    bc: Seq<int>,
    i: int,
    j: int,
    kmax: int,
) -> T
    decreases kmax,
{
    if kmax <= 0 {
        T::zero_spec()
    } else {
        T::sum_spec(
            matmul_cell(a, b, bc, i, j, kmax - 1),
            T::product_spec(
                a.data@[ravel(a.shape@, matrix_coord(a.shape@, bc, i, kmax - 1))],
                b.data@[ravel(b.shape@, matrix_coord(b.shape@, bc, kmax - 1, j))],
            ),
        )
    }
}

/// Cell `(bc, i, j)` of `r` holds the full sum over the inner extent.
pub open spec fn cell_done<T: Element>(
    r: Seq<T>,
    out: Seq<i32>,
    a: Array<T>,
    b: Array<T>,
    bc: Seq<int>,
    i: int,
    j: int,
) -> bool {
    r[ravel(out, bc.push(i).push(j))] == matmul_cell(a, b, bc, i, j, a.shape@[a.ndim - 1] as int)
}

/// A batch coordinate selects a valid coordinate of the operand for every
/// row and column in range.
proof fn lemma_matrix_coord_valid<T: Element>(arr: Array<T>, bc: Seq<int>, x: int, y: int)
    requires
        arr.wf(),
        arr.ndim >= 2,
        bc.len() >= arr.ndim - 2,
        forall|d: int| 0 <= d < bc.len() ==> bc[d] >= 0,
        0 <= x < arr.shape@[arr.ndim - 2],
        0 <= y < arr.shape@[arr.ndim - 1],
    ensures
        valid_coord(arr.shape@, matrix_coord(arr.shape@, bc, x, y)),
{
    let c = matrix_coord(arr.shape@, bc, x, y);
    let nb = arr.ndim - 2;
    assert forall|d: int| 0 <= d < c.len() implies 0 <= #[trigger] c[d] < arr.shape@[d] by {
        if d < nb {
            assert(batch_shape(arr.shape@)[d] == arr.shape@[d]);
        }
    }
}

/// Splits a byte offset into its batch part and the row and column terms.
proof fn lemma_cell_offset(shape: Seq<i32>, strides: Seq<i32>, s: int, c: Seq<int>, base: int)
    requires
        valid_shape(shape),
        valid_coord(shape, c),
        shape.len() >= 2,
        1 <= s,
        fits_layout(shape, s),
        are_c_strides(shape, strides, s),
        base == s * ravel_upto(shape, c, shape.len() - 2),
    ensures
        0 <= base,
        0 <= c[shape.len() - 2] * strides[shape.len() - 2],
        0 <= c[shape.len() - 1] * strides[shape.len() - 1],
        base + c[shape.len() - 2] * strides[shape.len() - 2] + c[shape.len() - 1] * strides[
            shape.len() - 1] == s * ravel(shape, c),
        s * ravel(shape, c) <= i32::MAX,
        0 <= ravel(shape, c) < shape_prod(shape),
        (s * ravel(shape, c)) / s == ravel(shape, c),
{
    let n = shape.len() as int;
    lemma_stride_term(shape, strides, s, c, n - 2);
    lemma_stride_term(shape, strides, s, c, n - 1);
    lemma_ravel_in_range(shape, c);
    let q = ravel(shape, c);
    assert((s * q) / s == q) by (nonlinear_arith)
        requires
            s >= 1,
    ;
}

/// Byte offset of the batch part of the coordinate that batch coordinate
/// `bc` selects in `arr`: each leading axis contributes the right-aligned
/// coordinate reduced modulo its extent, times its stride.
fn batch_offset<T: Element>(arr: &Array<T>, bc: &Vec<i32>) -> (r: i32)
    requires
        arr.wf(),
        arr.ndim >= 2,
        bc@.len() >= arr.ndim - 2,
        forall|d: int| 0 <= d < bc@.len() ==> #[trigger] bc@[d] >= 0,
    ensures
        r == arr.itemsize * ravel_upto(
            arr.shape@,
            matrix_coord(arr.shape@, to_ints(bc@), 0, 0),
            arr.ndim - 2,
        ),
{
    let nl = arr.ndim - 2;
    let blen = bc.len();
    let off = blen - nl;
    let ghost c = to_ints(bc@);
    let ghost full = matrix_coord(arr.shape@, c, 0, 0);
    proof {
        assert forall|d: int| 0 <= d < c.len() implies c[d] >= 0 by {
            assert(bc@[d] >= 0);
        }
        lemma_suffix_prod_pos(arr.shape@, 0);
        lemma_matrix_coord_valid(*arr, c, 0, 0);
    }
    let mut r: i32 = 0;
    let mut d: usize = 0;
    while d < nl
        invariant
            arr.wf(),
            nl == arr.ndim - 2,
            off == bc@.len() - nl,
            bc@.len() >= nl,
            blen == bc@.len(),
            forall|t: int| 0 <= t < bc@.len() ==> #[trigger] bc@[t] >= 0,
            c == to_ints(bc@),
            full == matrix_coord(arr.shape@, c, 0, 0),
            valid_coord(arr.shape@, full),
            d <= nl,
            r == arr.itemsize * ravel_upto(arr.shape@, full, d as int),
        decreases nl - d,
    {
        proof {
            lemma_stride_term(arr.shape@, arr.strides@, arr.itemsize as int, full, d as int);
            assert(full[d as int] == c[off + d] % (arr.shape@[d as int] as int));
        }
        let x = bc[off + d];
        assert(x as int == c[off + d]);
        r = r + (x % arr.shape[d]) * arr.strides[d];
        d = d + 1;
    }
    r
}

/// One cell of the product: the wrapping sum over `k` ascending of
/// `a[bc, i, k] * b[bc, k, j]`.
fn dot_cell<T: Element>(
    a: &Array<T>,
    b: &Array<T>,
    a_base: i32,
    b_base: i32,
    i: usize,
    j: usize,
    Ghost(bc): Ghost<Seq<int>>,
) -> (r: T)
    requires
        a.wf(),
        b.wf(),
        a.ndim >= 2,
        b.ndim >= 2,
        a.shape@[a.ndim - 1] == b.shape@[b.ndim - 2],
        a.itemsize == b.itemsize,
        i < a.shape@[a.ndim - 2],
        j < b.shape@[b.ndim - 1],
        bc.len() >= a.ndim - 2,
        bc.len() >= b.ndim - 2,
        forall|d: int| 0 <= d < bc.len() ==> bc[d] >= 0,
        a_base == a.itemsize * ravel_upto(
            a.shape@,
            matrix_coord(a.shape@, bc, 0, 0),
            a.ndim - 2,
        ),
        b_base == b.itemsize * ravel_upto(
            b.shape@,
            matrix_coord(b.shape@, bc, 0, 0),
            b.ndim - 2,
        ),
    ensures
        r == matmul_cell(*a, *b, bc, i as int, j as int, a.shape@[a.ndim - 1] as int),
{
    let na = a.ndim;
    let nb = b.ndim;
    let n = a.shape[na - 1] as usize;
    let mut sum = T::zero();
    let mut k: usize = 0;
    while k < n
        invariant
            a.wf(),
            b.wf(),
            na == a.ndim,
            nb == b.ndim,
            na >= 2,
            nb >= 2,
            n == a.shape@[na - 1],
            n == b.shape@[nb - 2],
            a.itemsize == b.itemsize,
            i < a.shape@[na - 2],
            j < b.shape@[nb - 1],
            bc.len() >= na - 2,
            bc.len() >= nb - 2,
            forall|d: int| 0 <= d < bc.len() ==> bc[d] >= 0,
            a_base == a.itemsize * ravel_upto(a.shape@, matrix_coord(a.shape@, bc, 0, 0), na - 2),
            b_base == b.itemsize * ravel_upto(b.shape@, matrix_coord(b.shape@, bc, 0, 0), nb - 2),
            k <= n,
            sum == matmul_cell(*a, *b, bc, i as int, j as int, k as int),
        decreases n - k,
    {
        let ghost ca = matrix_coord(a.shape@, bc, i as int, k as int);
        let ghost cb = matrix_coord(b.shape@, bc, k as int, j as int);
        proof {
            lemma_matrix_coord_valid(*a, bc, i as int, k as int);
            lemma_matrix_coord_valid(*b, bc, k as int, j as int);
            lemma_ravel_upto_prefix(
                a.shape@,
                ca,
                matrix_coord(a.shape@, bc, 0, 0),
                na - 2,
            );
            lemma_ravel_upto_prefix(
                b.shape@,
                cb,
                matrix_coord(b.shape@, bc, 0, 0),
                nb - 2,
            );
            lemma_cell_offset(a.shape@, a.strides@, a.itemsize as int, ca, a_base as int);
            lemma_cell_offset(b.shape@, b.strides@, b.itemsize as int, cb, b_base as int);
        }
        let a_off = a_base + (i as i32) * a.strides[na - 2] + (k as i32) * a.strides[na - 1];
        let b_off = b_base + (k as i32) * b.strides[nb - 2] + (j as i32) * b.strides[nb - 1];
        let x = a.data[(a_off as usize) / a.itemsize];
        let y = b.data[(b_off as usize) / b.itemsize];
        sum = sum.elem_sum(x.elem_product(y));
        k = k + 1;
    }
    sum
}

/// Every cell of the batches before position `t` of the batch enumeration
/// is done.
pub open spec fn batches_done<T: Element>(
    r: Seq<T>,
    out: Seq<i32>,
    a: Array<T>,
    b: Array<T>,
    t: int,
) -> bool {
    let bs = batch_shape(out);
    forall|bc: Seq<int>, i: int, j: int|
        valid_coord(bs, bc) && ravel(bs, bc) < t && 0 <= i < out[out.len() - 2] && 0 <= j < out[
            out.len() - 1] ==> #[trigger] cell_done(r, out, a, b, bc, i, j)
}

proof fn lemma_out_coord_valid(out: Seq<i32>, bc: Seq<int>, i: int, j: int)
    requires
        out.len() >= 2,
        valid_coord(batch_shape(out), bc),
        0 <= i < out[out.len() - 2],
        0 <= j < out[out.len() - 1],
    ensures
        valid_coord(out, bc.push(i).push(j)),
{
    let c = bc.push(i).push(j);
    let nb = out.len() - 2;
    assert forall|d: int| 0 <= d < c.len() implies 0 <= #[trigger] c[d] < out[d] by {
        if d < nb {
            assert(batch_shape(out)[d] == out[d]);
        }
    }
}

/// Writing one cell leaves every other cell as it was.
proof fn lemma_write_keeps<T: Element>(
    r: Seq<T>,
    out: Seq<i32>,
    a: Array<T>,
    b: Array<T>,
    bc0: Seq<int>,
    i0: int,
    j0: int,
    v: T,
    bc: Seq<int>,
    i: int,
    j: int,
)
    requires
        valid_shape(out),
        r.len() == shape_prod(out),
        valid_coord(out, bc0.push(i0).push(j0)),
        valid_coord(out, bc.push(i).push(j)),
        !(bc == bc0 && i == i0 && j == j0),
    ensures
        cell_done(r.update(ravel(out, bc0.push(i0).push(j0)), v), out, a, b, bc, i, j)
            == cell_done(r, out, a, b, bc, i, j),
{
    let c0 = bc0.push(i0).push(j0);
    let c = bc.push(i).push(j);
    lemma_ravel_in_range(out, c);
    lemma_ravel_in_range(out, c0);
    if ravel(out, c) == ravel(out, c0) {
        lemma_ravel_injective(out, c, c0);
        assert(c.drop_last().drop_last() =~= bc);
        assert(c0.drop_last().drop_last() =~= bc0);
        assert(c.last() == j && c0.last() == j0);
        assert(c.drop_last().last() == i && c0.drop_last().last() == i0);
    } else {
        assert(r.update(ravel(out, c0), v)[ravel(out, c)] == r[ravel(out, c)]);
    }
}

/// Batched matrix product with broadcast batch axes. Each cell is the
/// wrapping sum, for `k` ascending, of `a[.., i, k] * b[.., k, j]`.
pub fn nr_matmul<T: Element>(a: &Array<T>, b: &Array<T>) -> (r: Result<Array<T>, ArrayError>)
    requires
        a.wf(),
        b.wf(),
    ensures
        match r {
            Ok(res) => {
                &&& a.ndim >= 2
                &&& b.ndim >= 2
                &&& a.shape@[a.ndim - 1] == b.shape@[b.ndim - 2]
                &&& broadcastable(batch_shape(a.shape@), batch_shape(b.shape@))
                &&& res.wf()
                &&& res.shape@ == matmul_shape(a.shape@, b.shape@)
                &&& forall|bc: Seq<int>, i: int, j: int|
                    valid_coord(batch_shape(res.shape@), bc) && 0 <= i < a.shape@[a.ndim - 2] && 0
                        <= j < b.shape@[b.ndim - 1] ==> #[trigger] cell_done(
                        res.data@,
                        res.shape@,
                        *a,
                        *b,
                        bc,
                        i,
                        j,
                    )
            },
            Err(e) => if a.ndim < 2 || b.ndim < 2 {
                e == ArrayError::RankTooLow
            } else if a.shape@[a.ndim - 1] != b.shape@[b.ndim - 2] {
                e == ArrayError::DimensionMismatch
            } else if !broadcastable(batch_shape(a.shape@), batch_shape(b.shape@)) {
                e == ArrayError::BroadcastIncompatible
            } else {
                &&& e == ArrayError::InvalidShape
                &&& !fits_layout(matmul_shape(a.shape@, b.shape@), size_of::<T>() as int)
            },
        },
{
    let na = a.ndim;
    let nbx = b.ndim;
    if na < 2 || nbx < 2 {
        return Err(ArrayError::RankTooLow);
    }
    if a.shape[na - 1] != b.shape[nbx - 2] {
        return Err(ArrayError::DimensionMismatch);
    }
    let a_batch = slice_subrange(a.shape.as_slice(), 0, na - 2);
    let b_batch = slice_subrange(b.shape.as_slice(), 0, nbx - 2);
    let mut result_shape = match broadcast_final_shape(a_batch, b_batch) {
        Some(s) => s,
        None => {
            return Err(ArrayError::BroadcastIncompatible);
        },
    };
    let nbatch = result_shape.len();
    let ghost bshape = result_shape@;
    proof {
        assert(a_batch@ == batch_shape(a.shape@));
        assert(b_batch@ == batch_shape(b.shape@));
        lemma_broadcast_expands(a_batch@, b_batch@);
    }
    result_shape.push(a.shape[na - 2]);
    result_shape.push(b.shape[nbx - 1]);
    let ghost out = result_shape@;
    proof {
        assert(out == matmul_shape(a.shape@, b.shape@));
        assert(batch_shape(out) =~= bshape);
        assert(valid_shape(out));
    }
    let mut result = Array::<T>::nr_create(result_shape.as_slice(), nbatch + 2)?;
    let nr = nbatch + 2;
    let bs = slice_subrange(result_shape.as_slice(), 0, nbatch);
    proof {
        assert(bs@ =~= bshape);
        let m = out[nbatch as int] as int;
        let p = out[nbatch + 1] as int;
        lemma_suffix_prod_drop_last(out, 0);
        assert(out.drop_last() =~= bshape.push(m as i32));
        lemma_suffix_prod_drop_last(bshape.push(m as i32), 0);
        assert(bshape.push(m as i32).drop_last() =~= bshape);
        lemma_suffix_prod_pos(bshape, 0);
        let q = shape_prod(bshape);
        let s = result.itemsize as int;
        assert(q * 1 <= q * m * p * s) by (nonlinear_arith)
            requires
                q >= 1,
                m >= 1,
                p >= 1,
                s >= 1,
        ;
    }
    let idxs = Array::<T>::create_array_indices(bs, nbatch);
    let m = a.shape[na - 2] as usize;
    let p = b.shape[nbx - 1] as usize;
    proof {
        let bs2 = batch_shape(out);
        assert forall|bc2: Seq<int>, i2: int, j2: int|
            valid_coord(bs2, bc2) && ravel(bs2, bc2) < 0 && 0 <= i2 < out[out.len() - 2] && 0
                <= j2 < out[out.len() - 1] implies #[trigger] cell_done(
            result.data@,
            out,
            *a,
            *b,
            bc2,
            i2,
            j2,
        ) by {
            lemma_ravel_in_range(bshape, bc2);
        }
    }
    let mut t: usize = 0;
    while t < idxs.count
        invariant
            a.wf(),
            b.wf(),
            result.wf(),
            na == a.ndim,
            nbx == b.ndim,
            na >= 2,
            nbx >= 2,
            a.shape@[na - 1] == b.shape@[nbx - 2],
            result.shape@ == out,
            out.len() == nr,
            nr == nbatch + 2,
            batch_shape(out) == bshape,
            bshape.len() == nbatch,
            nbatch >= na - 2,
            nbatch >= nbx - 2,
            result.itemsize == a.itemsize,
            a.itemsize == b.itemsize,
            m == out[nbatch as int],
            p == out[nbatch + 1],
            m == a.shape@[na - 2],
            p == b.shape@[nbx - 1],
            idxs.enumerates(bshape),
            t <= idxs.count,
            batches_done(result.data@, out, *a, *b, t as int),
        decreases idxs.count - t,
    {
        let bcv = &idxs.indices[t];
        let ghost bc = to_ints(bcv@);
        proof {
            assert(coord_at(bshape, idxs.indices@[t as int]@, t as int));
            assert forall|d: int| 0 <= d < bcv@.len() implies #[trigger] bcv@[d] >= 0 by {
                assert(bc[d] == bcv@[d] as int);
            }
            lemma_source_identity(bshape, bc);
        }
        let a_base = batch_offset(a, bcv);
        let b_base = batch_offset(b, bcv);
        let r_base = batch_offset(&result, bcv);
        let mut i: usize = 0;
        while i < m
            invariant
                a.wf(),
                b.wf(),
                result.wf(),
                na == a.ndim,
                nbx == b.ndim,
                na >= 2,
                nbx >= 2,
                a.shape@[na - 1] == b.shape@[nbx - 2],
                result.shape@ == out,
                out.len() == nr,
                nr == nbatch + 2,
                batch_shape(out) == bshape,
                bshape.len() == nbatch,
                nbatch >= na - 2,
                nbatch >= nbx - 2,
                result.itemsize == a.itemsize,
                a.itemsize == b.itemsize,
                m == out[nbatch as int],
                p == out[nbatch + 1],
                m == a.shape@[na - 2],
                p == b.shape@[nbx - 1],
                t < idxs.count,
                idxs.count == shape_prod(bshape),
                bc == to_ints(bcv@),
                valid_coord(bshape, bc),
                ravel(bshape, bc) == t,
                forall|d: int| 0 <= d < bc.len() ==> bc[d] >= 0,
                broadcast_source(bshape, bc) == bc,
                a_base == a.itemsize * ravel_upto(a.shape@, matrix_coord(a.shape@, bc, 0, 0), na - 2),
                b_base == b.itemsize * ravel_upto(b.shape@, matrix_coord(b.shape@, bc, 0, 0), nbx - 2),
                r_base == result.itemsize * ravel_upto(out, matrix_coord(out, bc, 0, 0), nr - 2),
                i <= m,
                batches_done(result.data@, out, *a, *b, t as int),
                forall|i2: int, j2: int|
                    0 <= i2 < i && 0 <= j2 < p ==> #[trigger] cell_done(
                        result.data@,
                        out,
                        *a,
                        *b,
                        bc,
                        i2,
                        j2,
                    ),
            decreases m - i,
        {
            let mut j: usize = 0;
            while j < p
                invariant
                    a.wf(),
                    b.wf(),
                    result.wf(),
                    na == a.ndim,
                    nbx == b.ndim,
                    na >= 2,
                    nbx >= 2,
                    a.shape@[na - 1] == b.shape@[nbx - 2],
                    result.shape@ == out,
                    out.len() == nr,
                    nr == nbatch + 2,
                    batch_shape(out) == bshape,
                    bshape.len() == nbatch,
                    nbatch >= na - 2,
                    nbatch >= nbx - 2,
                    result.itemsize == a.itemsize,
                    a.itemsize == b.itemsize,
                    m == out[nbatch as int],
                    p == out[nbatch + 1],
                    m == a.shape@[na - 2],
                    p == b.shape@[nbx - 1],
                    t < idxs.count,
                    idxs.count == shape_prod(bshape),
                    bc == to_ints(bcv@),
                    valid_coord(bshape, bc),
                    ravel(bshape, bc) == t,
                    forall|d: int| 0 <= d < bc.len() ==> bc[d] >= 0,
                    broadcast_source(bshape, bc) == bc,
                    a_base == a.itemsize * ravel_upto(
                        a.shape@,
                        matrix_coord(a.shape@, bc, 0, 0),
                        na - 2,
                    ),
                    b_base == b.itemsize * ravel_upto(
                        b.shape@,
                        matrix_coord(b.shape@, bc, 0, 0),
                        nbx - 2,
                    ),
                    r_base == result.itemsize * ravel_upto(
                        out,
                        matrix_coord(out, bc, 0, 0),
                        nr - 2,
                    ),
                    i < m,
                    j <= p,
                    batches_done(result.data@, out, *a, *b, t as int),
                    forall|i2: int, j2: int|
                        0 <= i2 < i && 0 <= j2 < p ==> #[trigger] cell_done(
                            result.data@,
                            out,
                            *a,
                            *b,
                            bc,
                            i2,
                            j2,
                        ),
                    forall|j2: int|
                        0 <= j2 < j ==> #[trigger] cell_done(
                            result.data@,
                            out,
                            *a,
                            *b,
                            bc,
                            i as int,
                            j2,
                        ),
                decreases p - j,
            {
                let v = dot_cell(a, b, a_base, b_base, i, j, Ghost(bc));
                let ghost cr = bc.push(i as int).push(j as int);
                proof {
                    lemma_out_coord_valid(out, bc, i as int, j as int);
                    assert(matrix_coord(out, bc, 0, 0) == bc.push(0).push(0));
                    lemma_ravel_upto_prefix(out, cr, bc.push(0).push(0), nr - 2);
                    lemma_cell_offset(
                        out,
                        result.strides@,
                        result.itemsize as int,
                        cr,
                        r_base as int,
                    );
                }
                let r_off = r_base + (i as i32) * result.strides[nr - 2] + (j as i32)
                    * result.strides[nr - 1];
                let pos = (r_off as usize) / result.itemsize;
                let ghost before = result.data@;
                result.data.set(pos, v);
                proof {
                    let bs2 = batch_shape(out);
                    assert forall|bc2: Seq<int>, i2: int, j2: int|
                        valid_coord(bs2, bc2) && ravel(bs2, bc2) < t && 0 <= i2 < out[out.len()
                            - 2] && 0 <= j2 < out[out.len() - 1] implies #[trigger] cell_done(
                        result.data@,
                        out,
                        *a,
                        *b,
                        bc2,
                        i2,
                        j2,
                    ) by {
                        lemma_out_coord_valid(out, bc2, i2, j2);
                        assert(cell_done(before, out, *a, *b, bc2, i2, j2));
                        lemma_write_keeps(
                            before,
                            out,
                            *a,
                            *b,
                            bc,
                            i as int,
                            j as int,
                            v,
                            bc2,
                            i2,
                            j2,
                        );
                    }
                    assert forall|i2: int, j2: int|
                        0 <= i2 < i && 0 <= j2 < p implies #[trigger] cell_done(
                        result.data@,
                        out,
                        *a,
                        *b,
                        bc,
                        i2,
                        j2,
                    ) by {
                        lemma_out_coord_valid(out, bc, i2, j2);
                        lemma_write_keeps(
                            before,
                            out,
                            *a,
                            *b,
                            bc,
                            i as int,
                            j as int,
                            v,
                            bc,
                            i2,
                            j2,
                        );
                    }
                    assert forall|j2: int| 0 <= j2 < j + 1 implies #[trigger] cell_done(
                        result.data@,
                        out,
                        *a,
                        *b,
                        bc,
                        i as int,
                        j2,
                    ) by {
                        if j2 < j {
                            lemma_out_coord_valid(out, bc, i as int, j2);
                            lemma_write_keeps(
                                before,
                                out,
                                *a,
                                *b,
                                bc,
                                i as int,
                                j as int,
                                v,
                                bc,
                                i as int,
                                j2,
                            );
                        }
                    }
                }
                j = j + 1;
            }
            i = i + 1;
        }
        proof {
            let bs2 = batch_shape(out);
            assert forall|bc2: Seq<int>, i2: int, j2: int|
                valid_coord(bs2, bc2) && ravel(bs2, bc2) < t + 1 && 0 <= i2 < out[out.len() - 2]
                    && 0 <= j2 < out[out.len() - 1] implies #[trigger] cell_done(
                result.data@,
                out,
                *a,
                *b,
                bc2,
                i2,
                j2,
            ) by {
                if ravel(bs2, bc2) == t {
                    lemma_ravel_injective(bshape, bc2, bc);
                }
            }
        }
        t = t + 1;
    }
    proof {
        assert forall|bc: Seq<int>, i: int, j: int|
            valid_coord(batch_shape(result.shape@), bc) && 0 <= i < a.shape@[a.ndim - 2] && 0 <= j
                < b.shape@[b.ndim - 1] implies #[trigger] cell_done(
            result.data@,
            result.shape@,
            *a,
            *b,
            bc,
            i,
            j,
        ) by {
            lemma_ravel_in_range(bshape, bc);
        }
    }
    Ok(result)
}

} // verus!
