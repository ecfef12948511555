//! Broadcasting: the combined shape of two operands, the expansion of an
//! operand to that shape, and the elementwise sum and product.
use crate::array::{create_ok, Array, ArrayError, coord_at, lemma_stride_term};
use crate::element::Element;
use crate::geometry::{
    fits_layout, lemma_ravel_in_range, lemma_ravel_injective, ravel, ravel_upto, to_ints,
    valid_coord, valid_shape,
};
use vstd::arithmetic::div_mod::lemma_small_mod;
use vstd::layout::size_of;
use vstd::prelude::*;

verus! {

/// Extent of axis `k` once `shape` is right-aligned to rank `n`: the
/// missing leading axes count as extent 1.
pub open spec fn aligned_extent(shape: Seq<i32>, n: int, k: int) -> int {
    if k < n - shape.len() {
        1
    } else {
        shape[k - (n - shape.len())] as int
    }
}

pub open spec fn broadcast_rank(a: Seq<i32>, b: Seq<i32>) -> int {
    if a.len() >= b.len() {
        a.len() as int
    } else {
        b.len() as int
    }
}

/// On every right-aligned axis the extents agree or one of them is 1.
pub open spec fn broadcastable(a: Seq<i32>, b: Seq<i32>) -> bool {
    let n = broadcast_rank(a, b);
    forall|k: int|
        0 <= k < n ==> {
            let x = #[trigger] aligned_extent(a, n, k);
            let y = aligned_extent(b, n, k);
            x == 1 || y == 1 || x == y
        }
}

/// The broadcast shape: the larger extent on every right-aligned axis.
pub open spec fn broadcast_shape(a: Seq<i32>, b: Seq<i32>) -> Seq<i32> {
    let n = broadcast_rank(a, b);
    Seq::new(
        n as nat,
        |k: int|
            if aligned_extent(a, n, k) >= aligned_extent(b, n, k) {
                aligned_extent(a, n, k) as i32
            } else {
                aligned_extent(b, n, k) as i32
            },
    )
}

/// `src` expands to `out`: on each right-aligned axis its extent is 1 or
/// equals the target extent.
pub open spec fn expands_to(src: Seq<i32>, out: Seq<i32>) -> bool {
    &&& src.len() <= out.len()
    &&& forall|d: int|
        0 <= d < src.len() ==> #[trigger] src[d] == 1 || src[d] == out[out.len() - src.len() + d]
}

/// The coordinate of `src` that feeds coordinate `c` of the expanded
/// shape: extent-1 axes are pinned to 0.
pub open spec fn broadcast_source(src: Seq<i32>, c: Seq<int>) -> Seq<int> {
    Seq::new(src.len(), |d: int| c[c.len() - src.len() + d] % (src[d] as int))
}

/// Offset of the element of an array of shape `src` that lands at
/// coordinate `c` after broadcasting.
pub open spec fn source_offset(src: Seq<i32>, c: Seq<int>) -> int {
    ravel(src, broadcast_source(src, c))
}

/// The elementwise operations.
#[derive(Debug, Clone, Copy, PartialEq, Eq, Structural)]
pub enum BinaryOp {
    Sum,
    Product,
}

pub open spec fn apply_spec<T: Element>(op: BinaryOp, x: T, y: T) -> T {
    match op {
        BinaryOp::Sum => T::sum_spec(x, y),
        BinaryOp::Product => T::product_spec(x, y),
    }
}

fn apply<T: Element>(op: BinaryOp, x: T, y: T) -> (r: T)
    ensures
        r == apply_spec(op, x, y),
{
    match op {
        BinaryOp::Sum => x.elem_sum(y),
        BinaryOp::Product => x.elem_product(y),
    }
}

/// Inputs on which an elementwise operation succeeds.
pub open spec fn elementwise_ok(a: Seq<i32>, b: Seq<i32>, itemsize: int) -> bool {
    broadcastable(a, b) && fits_layout(broadcast_shape(a, b), itemsize)
}

/// `r` holds, at every coordinate of its shape, `op` of the two operand
/// elements that broadcast to that coordinate.
pub open spec fn combines<T: Element>(a: Array<T>, b: Array<T>, r: Array<T>, op: BinaryOp) -> bool {
    forall|c: Seq<int>|
        valid_coord(r.shape@, c) ==> #[trigger] r.data@[ravel(r.shape@, c)] == apply_spec(
            op,
            a.data@[source_offset(a.shape@, c)],
            b.data@[source_offset(b.shape@, c)],
        )
}

/// The broadcast shape of two shapes, or `None` when some right-aligned
/// axis pair has two different extents, neither of them 1.
pub fn broadcast_final_shape(a: &[i32], b: &[i32]) -> (r: Option<Vec<i32>>)
    ensures
        r is Some <==> broadcastable(a@, b@),
        r matches Some(s) ==> s@ == broadcast_shape(a@, b@),
{
    let n = if a.len() >= b.len() {
        a.len()
    } else {
        b.len()
    };
    let pa = n - a.len();
    let pb = n - b.len();
    let mut res: Vec<i32> = Vec::new();
    let mut k: usize = 0;
    while k < n
        invariant
            n == broadcast_rank(a@, b@),
            pa == n - a@.len(),
            pb == n - b@.len(),
            k <= n,
            res@.len() == k,
            forall|t: int| 0 <= t < k ==> #[trigger] res@[t] == broadcast_shape(a@, b@)[t],
            forall|t: int|
                0 <= t < k ==> {
                    let x = #[trigger] aligned_extent(a@, n as int, t);
                    let y = aligned_extent(b@, n as int, t);
                    x == 1 || y == 1 || x == y
                },
        decreases n - k,
    {
        let x: i32 = if k < pa {
            1
        } else {
            a[k - pa]
        };
        let y: i32 = if k < pb {
            1
        } else {
            b[k - pb]
        };
        assert(x as int == aligned_extent(a@, n as int, k as int));
        assert(y as int == aligned_extent(b@, n as int, k as int));
        if x == 1 || y == 1 || x == y {
            res.push(
                if x >= y {
                    x
                } else {
                    y
                },
            );
        } else {
            return None;
        }
        k = k + 1;
    }
    assert(res@ =~= broadcast_shape(a@, b@));
    Some(res)
}

/// Materialises `arr` broadcast to `shape`: each output coordinate reads
/// the element at the coordinate reduced modulo the source extents.
pub fn broadcast_array<T: Element>(arr: &Array<T>, shape: &[i32], ndim: usize) -> (r: Result<
    Array<T>,
    ArrayError,
>)
    requires
        arr.wf(),
        create_ok(shape@, ndim as int, size_of::<T>() as int),
        expands_to(arr.shape@, shape@),
    ensures
        match r {
            Ok(res) => {
                &&& res.wf()
                &&& res.shape@ == shape@
                &&& forall|c: Seq<int>|
                    valid_coord(shape@, c) ==> #[trigger] res.data@[ravel(shape@, c)]
                        == arr.data@[source_offset(arr.shape@, c)]
            },
            Err(_) => false,
        },
{
    let mut res = Array::<T>::nr_create(shape, ndim)?;
    let np = ndim - arr.ndim;
    let mut i: usize = 0;
    while i < res.totalsize
        invariant
            arr.wf(),
            res.wf(),
            res.shape@ == shape@,
            res.ndim == ndim,
            res.itemsize == arr.itemsize,
            np == ndim - arr.ndim,
            expands_to(arr.shape@, shape@),
            i <= res.totalsize,
            forall|t: int|
                0 <= t < i ==> #[trigger] res.data@[t] == arr.data@[source_offset(
                    arr.shape@,
                    to_ints(res.idxs.indices@[t]@),
                )],
        decreases res.totalsize - i,
    {
        assert(coord_at(shape@, res.idxs.indices@[i as int]@, i as int));
        let ghost c = to_ints(res.idxs.indices@[i as int]@);
        let ghost src = broadcast_source(arr.shape@, c);
        assert(res.idxs.indices@[i as int]@.len() == c.len());
        assert(valid_coord(arr.shape@, src));
        let mut src_idx: i32 = 0;
        let mut dim: usize = 0;
        while dim < arr.ndim
            invariant
                arr.wf(),
                res.wf(),
                res.shape@ == shape@,
                np == ndim - arr.ndim,
                i < res.totalsize,
                c == to_ints(res.idxs.indices@[i as int]@),
                valid_coord(shape@, c),
                src == broadcast_source(arr.shape@, c),
                valid_coord(arr.shape@, src),
                expands_to(arr.shape@, shape@),
                ndim == shape@.len(),
                res.idxs.indices@[i as int]@.len() == ndim,
                dim <= arr.ndim,
                src_idx as int == arr.itemsize * ravel_upto(arr.shape@, src, dim as int),
            decreases arr.ndim - dim,
        {
            proof {
                lemma_stride_term(arr.shape@, arr.strides@, arr.itemsize as int, src, dim as int);
            }
            if arr.shape[dim] > 1 {
                let x = res.idxs.indices[i][np + dim];
                assert(x as int == c[np + dim]);
                src_idx = src_idx + (x % arr.shape[dim]) * arr.strides[dim];
            } else {
                assert(src[dim as int] == 0);
            }
            dim = dim + 1;
        }
        proof {
            lemma_ravel_in_range(arr.shape@, src);
            let s = arr.itemsize as int;
            let q = ravel(arr.shape@, src);
            assert((s * q) / s == q) by (nonlinear_arith)
                requires
                    s >= 1,
            ;
        }
        let v = arr.data[(src_idx as usize) / arr.itemsize];
        let pos = res.lidxs.indices[i];
        res.data.set(pos, v);
        i = i + 1;
    }
    proof {
        assert forall|c: Seq<int>| valid_coord(shape@, c) implies #[trigger] res.data@[ravel(shape@, c)]
            == arr.data@[source_offset(arr.shape@, c)] by {
            let t = ravel(shape@, c);
            lemma_ravel_in_range(shape@, c);
            assert(coord_at(shape@, res.idxs.indices@[t]@, t));
            lemma_ravel_injective(shape@, c, to_ints(res.idxs.indices@[t]@));
        }
    }
    Ok(res)
}

/// The two shapes are equal.
fn same_shape(a: &Vec<i32>, b: &Vec<i32>) -> (r: bool)
    ensures
        r == (a@ == b@),
{
    if a.len() != b.len() {
        return false;
    }
    let mut j: usize = 0;
    while j < a.len()
        invariant
            a@.len() == b@.len(),
            j <= a@.len(),
            forall|t: int| 0 <= t < j ==> #[trigger] a@[t] == b@[t],
        decreases a@.len() - j,
    {
        if a[j] != b[j] {
            return false;
        }
        j = j + 1;
    }
    assert(a@ =~= b@);
    true
}

/// A valid shape broadcasts with itself to itself.
proof fn lemma_broadcast_self(a: Seq<i32>)
    requires
        valid_shape(a),
    ensures
        broadcastable(a, a),
        broadcast_shape(a, a) == a,
{
    assert(broadcast_shape(a, a) =~= a);
}

/// The broadcast shape is valid, and each operand expands to it.
pub proof fn lemma_broadcast_expands(a: Seq<i32>, b: Seq<i32>)
    requires
        valid_shape(a),
        valid_shape(b),
        broadcastable(a, b),
    ensures
        valid_shape(broadcast_shape(a, b)),
        expands_to(a, broadcast_shape(a, b)),
        expands_to(b, broadcast_shape(a, b)),
{
    let n = broadcast_rank(a, b);
    let out = broadcast_shape(a, b);
    assert forall|k: int| 0 <= k < n implies #[trigger] out[k] > 0 by {
        assert(aligned_extent(a, n, k) >= 1);
        assert(aligned_extent(b, n, k) >= 1);
    }
    assert forall|d: int| 0 <= d < a.len() implies #[trigger] a[d] == 1 || a[d] == out[n
        - a.len() + d] by {
        assert(aligned_extent(a, n, n - a.len() + d) == a[d]);
        assert(aligned_extent(b, n, n - a.len() + d) >= 1);
    }
    assert forall|d: int| 0 <= d < b.len() implies #[trigger] b[d] == 1 || b[d] == out[n
        - b.len() + d] by {
        assert(aligned_extent(b, n, n - b.len() + d) == b[d]);
        assert(aligned_extent(a, n, n - b.len() + d) >= 1);
    }
}

/// On a coordinate of its own shape, broadcasting an array reads the
/// element at that very coordinate.
pub proof fn lemma_source_identity(a: Seq<i32>, c: Seq<int>)
    requires
        valid_shape(a),
        valid_coord(a, c),
    ensures
        broadcast_source(a, c) == c,
        source_offset(a, c) == ravel(a, c),
{
    assert forall|d: int| 0 <= d < a.len() implies #[trigger] broadcast_source(a, c)[d] == c[d] by {
        lemma_small_mod(c[d] as nat, a[d] as nat);
    }
    assert(broadcast_source(a, c) =~= c);
}

/// `op` applied to two arrays under broadcasting.
pub fn elementwise<T: Element>(a: &Array<T>, b: &Array<T>, op: BinaryOp) -> (r: Result<
    Array<T>,
    ArrayError,
>)
    requires
        a.wf(),
        b.wf(),
    ensures
        r is Ok <==> elementwise_ok(a.shape@, b.shape@, size_of::<T>() as int),
        match r {
            Ok(res) => {
                &&& res.wf()
                &&& res.shape@ == broadcast_shape(a.shape@, b.shape@)
                &&& combines(*a, *b, res, op)
            },
            Err(e) => if broadcastable(a.shape@, b.shape@) {
                e == ArrayError::InvalidShape
            } else {
                e == ArrayError::BroadcastIncompatible
            },
        },
{
    if same_shape(&a.shape, &b.shape) {
        proof {
            lemma_broadcast_self(a.shape@);
        }
        let mut res = Array::<T>::nr_create(a.shape.as_slice(), a.ndim)?;
        let mut i: usize = 0;
        while i < res.totalsize
            invariant
                a.wf(),
                b.wf(),
                res.wf(),
                a.shape@ == b.shape@,
                res.shape@ == a.shape@,
                i <= res.totalsize,
                forall|t: int|
                    0 <= t < i ==> #[trigger] res.data@[t] == apply_spec(
                        op,
                        a.data@[t],
                        b.data@[t],
                    ),
            decreases res.totalsize - i,
        {
            let v = apply(op, a.data[a.lidxs.indices[i]], b.data[b.lidxs.indices[i]]);
            res.data.set(i, v);
            i = i + 1;
        }
        proof {
            assert forall|c: Seq<int>| valid_coord(res.shape@, c) implies #[trigger] res.data@[ravel(
                res.shape@,
                c,
            )] == apply_spec(
                op,
                a.data@[source_offset(a.shape@, c)],
                b.data@[source_offset(b.shape@, c)],
            ) by {
                lemma_ravel_in_range(res.shape@, c);
                lemma_source_identity(a.shape@, c);
            }
        }
        return Ok(res);
    }
    let res_shape = match broadcast_final_shape(a.shape.as_slice(), b.shape.as_slice()) {
        Some(s) => s,
        None => {
            return Err(ArrayError::BroadcastIncompatible);
        },
    };
    proof {
        lemma_broadcast_expands(a.shape@, b.shape@);
    }
    let n = res_shape.len();
    let mut res = Array::<T>::nr_create(res_shape.as_slice(), n)?;
    let a_full = broadcast_array(a, res_shape.as_slice(), n)?;
    let b_full = broadcast_array(b, res_shape.as_slice(), n)?;
    let mut i: usize = 0;
    while i < res.totalsize
        invariant
            res.wf(),
            a_full.wf(),
            b_full.wf(),
            res.shape@ == res_shape@,
            a_full.shape@ == res_shape@,
            b_full.shape@ == res_shape@,
            i <= res.totalsize,
            forall|t: int|
                0 <= t < i ==> #[trigger] res.data@[t] == apply_spec(
                    op,
                    a_full.data@[t],
                    b_full.data@[t],
                ),
        decreases res.totalsize - i,
    {
        let v = apply(op, a_full.data[i], b_full.data[i]);
        res.data.set(i, v);
        i = i + 1;
    }
    proof {
        assert forall|c: Seq<int>| valid_coord(res.shape@, c) implies #[trigger] res.data@[ravel(
            res.shape@,
            c,
        )] == apply_spec(
            op,
            a.data@[source_offset(a.shape@, c)],
            b.data@[source_offset(b.shape@, c)],
        ) by {
            lemma_ravel_in_range(res.shape@, c);
            assert(a_full.data@[ravel(res_shape@, c)] == a.data@[source_offset(a.shape@, c)]);
            assert(b_full.data@[ravel(res_shape@, c)] == b.data@[source_offset(b.shape@, c)]);
        }
    }
    Ok(res)
}

/// Elementwise wrapping sum under broadcasting.
pub fn nr_add<T: Element>(a: &Array<T>, b: &Array<T>) -> (r: Result<Array<T>, ArrayError>)
    requires
        a.wf(),
        b.wf(),
    ensures
        r is Ok <==> elementwise_ok(a.shape@, b.shape@, size_of::<T>() as int),
        match r {
            Ok(res) => {
                &&& res.wf()
                &&& res.shape@ == broadcast_shape(a.shape@, b.shape@)
                &&& combines(*a, *b, res, BinaryOp::Sum)
            },
            Err(e) => if broadcastable(a.shape@, b.shape@) {
                e == ArrayError::InvalidShape
            } else {
                e == ArrayError::BroadcastIncompatible
            },
        },
{
    elementwise(a, b, BinaryOp::Sum)
}

/// Elementwise wrapping product under broadcasting.
pub fn nr_mul<T: Element>(a: &Array<T>, b: &Array<T>) -> (r: Result<Array<T>, ArrayError>)
    requires
        a.wf(),
        b.wf(),
    ensures
        r is Ok <==> elementwise_ok(a.shape@, b.shape@, size_of::<T>() as int),
        match r {
            Ok(res) => {
                &&& res.wf()
                &&& res.shape@ == broadcast_shape(a.shape@, b.shape@)
                &&& combines(*a, *b, res, BinaryOp::Product)
            },
            Err(e) => if broadcastable(a.shape@, b.shape@) {
                e == ArrayError::InvalidShape
            } else {
                e == ArrayError::BroadcastIncompatible
            },
        },
{
    elementwise(a, b, BinaryOp::Product)
}

} // verus!
