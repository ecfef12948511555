//! The array container: an owned data buffer with its C-order layout
//! metadata and precomputed index tables.
use crate::element::Element;
use crate::geometry::{
    c_stride, fits_layout, lemma_ravel_bound, lemma_ravel_update,
    lemma_suffix_prod_mono, lemma_suffix_prod_pos, ravel, ravel_upto, shape_prod, suffix_prod,
    to_ints, valid_coord, valid_shape,
};
use vstd::layout::size_of;
use vstd::prelude::*;
use vstd::slice::slice_to_vec;

verus! {

/// Why an operation refused its inputs.
#[derive(Debug, Clone, Copy, PartialEq, Eq, Structural)]
pub enum ArrayError {
    /// Non-positive extent, rank mismatch or zero rank, or a layout too large
    /// for 32-bit byte offsets.
    InvalidShape,
    /// Malformed range bounds or step.
    InvalidRange,
    /// The new shape holds a different number of elements.
    InvalidReshape,
    /// The two shapes cannot be broadcast together.
    BroadcastIncompatible,
    /// A matrix product operand has fewer than two axes.
    RankTooLow,
    /// The inner extents of a matrix product differ.
    DimensionMismatch,
}

/// The table of all coordinate tuples of a shape, in row-major order.
#[derive(Debug)]
pub struct ArrayIndices {
    pub indices: Vec<Vec<i32>>,
    pub count: usize,
}

/// For each position of the row-major enumeration, the element offset into
/// the buffer.
#[derive(Debug)]
pub struct LinearIndices {
    pub indices: Vec<usize>,
    pub count: usize,
}

/// `c` is the coordinate tuple at position `i` of the row-major enumeration.
pub open spec fn coord_at(shape: Seq<i32>, c: Seq<i32>, i: int) -> bool {
    valid_coord(shape, to_ints(c)) && ravel(shape, to_ints(c)) == i
}

impl ArrayIndices {
    /// The table lists every coordinate tuple of `shape`, position `i`
    /// holding the tuple whose row-major offset is `i`.
    pub open spec fn enumerates(&self, shape: Seq<i32>) -> bool {
        &&& self.count == shape_prod(shape)
        &&& self.indices@.len() == self.count
        &&& forall|i: int|
            0 <= i < self.count ==> #[trigger] coord_at(shape, self.indices@[i]@, i)
    }
}

impl LinearIndices {
    /// Position `i` of the enumeration sits at element offset `i`.
    pub open spec fn is_identity(&self, count: int) -> bool {
        &&& self.count == count
        &&& self.indices@.len() == count
        &&& forall|i: int| 0 <= i < count ==> #[trigger] self.indices@[i] == i
    }
}

/// A dense array that owns its buffer.
#[derive(Debug)]
pub struct Array<T> {
    pub data: Vec<T>,
    pub shape: Vec<i32>,
    pub strides: Vec<i32>,
    pub backstrides: Vec<i32>,
    pub ndim: usize,
    pub itemsize: usize,
    pub totalsize: usize,
    pub idxs: ArrayIndices,
    pub lidxs: LinearIndices,
    pub c_order: bool,
    pub f_order: bool,
}

/// Strides are C-order byte strides of the shape.
pub open spec fn are_c_strides(shape: Seq<i32>, strides: Seq<i32>, itemsize: int) -> bool {
    &&& strides.len() == shape.len()
    &&& forall|j: int|
        0 <= j < shape.len() ==> #[trigger] strides[j] as int == c_stride(shape, itemsize, j)
}

/// Back-strides undo a full walk along each axis.
pub open spec fn are_backstrides(shape: Seq<i32>, strides: Seq<i32>, back: Seq<i32>) -> bool {
    &&& back.len() == shape.len()
    &&& forall|j: int|
        0 <= j < shape.len() ==> #[trigger] back[j] as int == -(strides[j] as int) * (
        shape[j] as int - 1)
}

/// A shape that `nr_create` accepts for elements of `itemsize` bytes.
pub open spec fn create_ok(shape: Seq<i32>, ndim: int, itemsize: int) -> bool {
    &&& ndim >= 1
    &&& shape.len() == ndim
    &&& valid_shape(shape)
    &&& fits_layout(shape, itemsize)
}

impl<T: Element> Array<T> {
    /// The layout metadata and index tables agree with the shape.
    pub open spec fn wf(&self) -> bool {
        &&& self.ndim >= 1
        &&& self.shape@.len() == self.ndim
        &&& valid_shape(self.shape@)
        &&& self.itemsize as int == size_of::<T>()
        &&& 1 <= self.itemsize <= 8
        &&& fits_layout(self.shape@, self.itemsize as int)
        &&& self.totalsize == shape_prod(self.shape@)
        &&& self.data@.len() == self.totalsize
        &&& are_c_strides(self.shape@, self.strides@, self.itemsize as int)
        &&& are_backstrides(self.shape@, self.strides@, self.backstrides@)
        &&& self.idxs.enumerates(self.shape@)
        &&& self.lidxs.is_identity(self.totalsize as int)
        &&& self.c_order == (self.strides@[self.ndim - 1] as int == self.itemsize as int)
        &&& self.f_order == (self.strides@[0] as int == self.itemsize as int)
    }

    /// Creates a zero-filled array of the given shape.
    pub fn nr_create(shape: &[i32], ndim: usize) -> (r: Result<Array<T>, ArrayError>)
        ensures
            r is Ok <==> create_ok(shape@, ndim as int, size_of::<T>() as int),
            match r {
                Ok(a) => {
                    &&& a.wf()
                    &&& a.shape@ == shape@
                    &&& a.totalsize == shape_prod(shape@)
                    &&& a.data@.len() == a.totalsize
                    &&& forall|i: int| 0 <= i < a.totalsize ==> #[trigger] a.data@[i] == T::zero_spec()
                },
                Err(e) => e == ArrayError::InvalidShape,
            },
    {
        proof {
            T::lemma_layout();
        }
        let itemsize = core::mem::size_of::<T>();
        if ndim == 0 || shape.len() != ndim {
            return Err(ArrayError::InvalidShape);
        }
        let totalsize = match layout_size(shape, itemsize) {
            Some(n) => n,
            None => {
                return Err(ArrayError::InvalidShape);
            },
        };
        let mut data: Vec<T> = Vec::new();
        let z = T::zero();
        while data.len() < totalsize
            invariant
                data@.len() <= totalsize,
                forall|i: int| 0 <= i < data@.len() ==> #[trigger] data@[i] == T::zero_spec(),
                z == T::zero_spec(),
            decreases totalsize - data@.len(),
        {
            data.push(z);
        }
        let shape = slice_to_vec(shape);
        let strides = compute_strides(&shape, itemsize);
        proof {
            lemma_c_stride_span(shape@, strides@, itemsize as int);
        }
        let backstrides = compute_backstrides(&shape, &strides);
        proof {
            let p = shape_prod(shape@);
            let s = itemsize as int;
            lemma_suffix_prod_pos(shape@, 0);
            assert(p * 1 <= p * s) by (nonlinear_arith)
                requires
                    p >= 1,
                    s >= 1,
            ;
        }
        let idxs = Self::create_array_indices(&shape, ndim);
        let lidxs = Self::create_linear_indices(&shape, &strides, itemsize, totalsize);
        let c_order = strides[ndim - 1] == itemsize as i32;
        let f_order = strides[0] == itemsize as i32;
        Ok(
            Array {
                data,
                shape,
                strides,
                backstrides,
                ndim,
                itemsize,
                totalsize,
                idxs,
                lidxs,
                c_order,
                f_order,
            },
        )
    }

    /// Enumerates all coordinate tuples of the shape in row-major order,
    /// advancing an odometer: the last axis moves fastest and carries left.
    pub fn create_array_indices(shape: &[i32], ndim: usize) -> (r: ArrayIndices)
        requires
            shape@.len() == ndim,
            valid_shape(shape@),
            fits_layout(shape@, 1),
        ensures
            r.enumerates(shape@),
    {
        let count = match layout_size(shape, 1) {
            Some(n) => n,
            None => 0,
        };
        let mut current: Vec<i32> = Vec::new();
        while current.len() < ndim
            invariant
                current@.len() <= ndim,
                forall|j: int| 0 <= j < current@.len() ==> #[trigger] current@[j] == 0,
            decreases ndim - current@.len(),
        {
            current.push(0);
        }
        proof {
            assert(to_ints(current@) =~= Seq::new(ndim as nat, |j: int| 0int));
            lemma_ravel_zero(shape@, to_ints(current@), ndim as int);
        }
        let mut indices: Vec<Vec<i32>> = Vec::new();
        let mut i: usize = 0;
        while i < count
            invariant
                count == shape_prod(shape@),
                shape@.len() == ndim,
                valid_shape(shape@),
                i <= count,
                current@.len() == ndim,
                valid_coord(shape@, to_ints(current@)),
                i < count ==> ravel(shape@, to_ints(current@)) == i,
                indices@.len() == i,
                forall|t: int| 0 <= t < i ==> #[trigger] coord_at(shape@, indices@[t]@, t),
            decreases count - i,
        {
            let snapshot = slice_to_vec(current.as_slice());
            indices.push(snapshot);
            let ghost at = i as int;
            let mut j: usize = ndim;
            let mut done = false;
            while j > 0 && !done
                invariant
                    shape@.len() == ndim,
                    valid_shape(shape@),
                    current@.len() == ndim,
                    j <= ndim,
                    valid_coord(shape@, to_ints(current@)),
                    done ==> ravel(shape@, to_ints(current@)) == at + 1,
                    !done ==> ravel(shape@, to_ints(current@)) + suffix_prod(shape@, j as int) == at
                        + 1,
                decreases j,
            {
                j = j - 1;
                let ghost c0 = to_ints(current@);
                assert(c0[j as int] == current@[j as int] as int);
                let v = current[j] + 1;
                proof {
                    lemma_ravel_update(shape@, c0, j as int, v as int, ndim as int);
                }
                if v < shape[j] {
                    current.set(j, v);
                    proof {
                        assert(to_ints(current@) =~= c0.update(j as int, v as int));
                        let p = suffix_prod(shape@, j + 1);
                        let x = c0[j as int];
                        assert((v - x) * p == p) by (nonlinear_arith)
                            requires
                                v == x + 1,
                        ;
                    }
                    done = true;
                } else {
                    current.set(j, 0);
                    proof {
                        lemma_ravel_update(shape@, c0, j as int, 0, ndim as int);
                        assert(to_ints(current@) =~= c0.update(j as int, 0));
                        let d = shape@[j as int] as int;
                        let p = suffix_prod(shape@, j + 1);
                        let x = c0[j as int];
                        assert(suffix_prod(shape@, j as int) == d * p);
                        assert(x == d - 1);
                        assert((0 - x) * p + d * p == p) by (nonlinear_arith)
                            requires
                                x == d - 1,
                        ;
                    }
                }
            }
            proof {
                lemma_ravel_bound(shape@, to_ints(current@), ndim as int);
                lemma_suffix_prod_pos(shape@, j as int);
            }
            i = i + 1;
        }
        ArrayIndices { indices, count }
    }

    /// The element offset of each enumerated coordinate tuple: the sum of
    /// coordinate times byte stride, divided by the element size.
    pub fn create_linear_indices(
        shape: &[i32],
        strides: &[i32],
        itemsize: usize,
        totalsize: usize,
    ) -> (r: LinearIndices)
        requires
            valid_shape(shape@),
            1 <= itemsize <= 8,
            fits_layout(shape@, itemsize as int),
            are_c_strides(shape@, strides@, itemsize as int),
            totalsize == shape_prod(shape@),
        ensures
            r.is_identity(totalsize as int),
    {
        let n = shape.len();
        proof {
            lemma_suffix_prod_pos(shape@, 0);
            assert(shape_prod(shape@) <= shape_prod(shape@) * itemsize) by (nonlinear_arith)
                requires
                    itemsize >= 1,
                    shape_prod(shape@) >= 1,
            ;
        }
        let idxs = Self::create_array_indices(shape, n);
        let mut indices: Vec<usize> = Vec::new();
        let mut i: usize = 0;
        while i < totalsize
            invariant
                n == shape@.len(),
                idxs.enumerates(shape@),
                totalsize == shape_prod(shape@),
                valid_shape(shape@),
                1 <= itemsize <= 8,
                fits_layout(shape@, itemsize as int),
                are_c_strides(shape@, strides@, itemsize as int),
                i <= totalsize,
                indices@.len() == i,
                forall|t: int| 0 <= t < i ==> #[trigger] indices@[t] == t,
            decreases totalsize - i,
        {
            let coord = &idxs.indices[i];
            assert(coord_at(shape@, idxs.indices@[i as int]@, i as int));
            let ghost c = to_ints(coord@);
            let mut idx: i32 = 0;
            let mut j: usize = 0;
            while j < n
                invariant
                    n == shape@.len(),
                    coord@.len() == n,
                    c == to_ints(coord@),
                    valid_shape(shape@),
                    valid_coord(shape@, c),
                    ravel(shape@, c) == i,
                    (i as int) < shape_prod(shape@),
                    1 <= itemsize <= 8,
                    fits_layout(shape@, itemsize as int),
                    are_c_strides(shape@, strides@, itemsize as int),
                    j <= n,
                    idx as int == itemsize * ravel_upto(shape@, c, j as int),
                decreases n - j,
            {
                proof {
                    lemma_stride_term(shape@, strides@, itemsize as int, c, j as int);
                    assert(c[j as int] == coord@[j as int] as int);
                }
                idx = idx + coord[j] * strides[j];
                j = j + 1;
            }
            proof {
                let t = i as int;
                let s = itemsize as int;
                assert((s * t) / s == t) by (nonlinear_arith)
                    requires
                        s >= 1,
                ;
            }
            indices.push((idx / itemsize as i32) as usize);
            i = i + 1;
        }
        LinearIndices { indices, count: totalsize }
    }
}

/// The C-contiguous flag is set exactly when the last stride is one element.
pub proof fn lemma_c_order_flag<T: Element>(a: Array<T>)
    requires
        a.wf(),
    ensures
        a.c_order <==> a.strides@[a.ndim - 1] as int == a.itemsize as int,
        a.c_order,
{
    assert(suffix_prod(a.shape@, a.ndim as int) == 1);
}

/// One step of a byte-offset sum: adding coordinate `j` times its stride
/// keeps the sum equal to the element size times the partial offset, and in
/// range.
pub proof fn lemma_stride_term(shape: Seq<i32>, strides: Seq<i32>, s: int, c: Seq<int>, j: int)
    requires
        valid_shape(shape),
        valid_coord(shape, c),
        0 <= j < shape.len(),
        1 <= s,
        fits_layout(shape, s),
        are_c_strides(shape, strides, s),
    ensures
        c[j] * strides[j] == s * (c[j] * suffix_prod(shape, j + 1)),
        s * ravel_upto(shape, c, j + 1) == s * ravel_upto(shape, c, j) + c[j] * strides[j],
        0 <= s * ravel_upto(shape, c, j),
        s * ravel_upto(shape, c, j + 1) <= i32::MAX,
        0 <= c[j] * strides[j] <= i32::MAX,
{
    lemma_ravel_bound(shape, c, j + 1);
    lemma_ravel_bound(shape, c, j);
    lemma_suffix_prod_pos(shape, j + 1);
    let x = c[j];
    let p = suffix_prod(shape, j + 1);
    let r0 = ravel_upto(shape, c, j);
    let r1 = ravel_upto(shape, c, j + 1);
    let total = shape_prod(shape);
    assert(strides[j] as int == s * p);
    assert(x * (s * p) == s * (x * p)) by (nonlinear_arith);
    assert(s * r1 == s * r0 + s * (x * p)) by (nonlinear_arith)
        requires
            r1 == r0 + x * p,
    ;
    assert(0 <= s * r0 && s * r1 <= total * s && 0 <= s * (x * p) <= s * r1) by (nonlinear_arith)
        requires
            0 <= r0,
            r1 <= total,
            s >= 1,
            0 <= x,
            p >= 1,
            r1 == r0 + x * p,
    ;
}

proof fn lemma_ravel_zero(shape: Seq<i32>, c: Seq<int>, k: int)
    requires
        0 <= k <= c.len(),
        forall|j: int| 0 <= j < c.len() ==> c[j] == 0,
    ensures
        ravel_upto(shape, c, k) == 0,
    decreases k,
{
    if k > 0 {
        lemma_ravel_zero(shape, c, k - 1);
    }
}

/// Number of elements of the shape, provided every extent is positive and
/// the byte size fits in an `i32`.
pub fn layout_size(shape: &[i32], itemsize: usize) -> (r: Option<usize>)
    requires
        1 <= itemsize <= 8,
    ensures
        r is Some <==> (valid_shape(shape@) && fits_layout(shape@, itemsize as int)),
        r matches Some(n) ==> n == shape_prod(shape@),
{
    let mut k: usize = shape.len();
    let mut acc: u64 = 1;
    while k > 0
        invariant
            k <= shape@.len(),
            1 <= itemsize <= 8,
            forall|j: int| k <= j < shape@.len() ==> #[trigger] shape@[j] > 0,
            acc as int == suffix_prod(shape@, k as int),
            acc * itemsize <= i32::MAX,
            acc <= i32::MAX,
        decreases k,
    {
        let dim = shape[k - 1];
        if dim <= 0 {
            return None;
        }
        proof {
            assert(acc * (dim as u64) <= i32::MAX * i32::MAX) by (nonlinear_arith)
                requires
                    acc <= i32::MAX,
                    0 < dim <= i32::MAX,
            ;
        }
        let next = acc * (dim as u64);
        proof {
            assert(suffix_prod(shape@, k - 1) == dim as int * acc as int);
            assert(dim as int * acc as int == acc * dim) by (nonlinear_arith);
            assert(next <= next * itemsize) by (nonlinear_arith)
                requires
                    itemsize >= 1,
                    next >= 0,
            ;
        }
        if next > i32::MAX as u64 {
            proof {
                let a = suffix_prod(shape@, k - 1);
                assert(a * itemsize > i32::MAX) by (nonlinear_arith)
                    requires
                        a == next,
                        next > i32::MAX || next * itemsize > i32::MAX,
                        itemsize >= 1,
                ;
                lemma_layout_overflow(shape@, (k - 1) as int, itemsize as int);
            }
            return None;
        }
        proof {
            assert(next * itemsize <= i32::MAX * 8) by (nonlinear_arith)
                requires
                    itemsize <= 8,
                    next <= i32::MAX,
            ;
        }
        if next * (itemsize as u64) > i32::MAX as u64 {
            proof {
                let a = suffix_prod(shape@, k - 1);
                assert(a * itemsize > i32::MAX) by (nonlinear_arith)
                    requires
                        a == next,
                        next > i32::MAX || next * itemsize > i32::MAX,
                        itemsize >= 1,
                ;
                lemma_layout_overflow(shape@, (k - 1) as int, itemsize as int);
            }
            return None;
        }
        proof {
            assert(next <= next * itemsize) by (nonlinear_arith)
                requires
                    itemsize >= 1,
                    next >= 0,
            ;
        }
        acc = next;
        k = k - 1;
    }
    Some(acc as usize)
}

/// A suffix of a valid shape that is already too large makes the whole
/// shape too large.
proof fn lemma_layout_overflow(shape: Seq<i32>, k: int, s: int)
    requires
        0 <= k <= shape.len(),
        s >= 1,
        suffix_prod(shape, k) * s > i32::MAX,
    ensures
        !(valid_shape(shape) && fits_layout(shape, s)),
{
    if valid_shape(shape) {
        lemma_suffix_prod_mono(shape, 0, k);
        lemma_suffix_prod_pos(shape, k);
        let a = suffix_prod(shape, k);
        let b = shape_prod(shape);
        assert(a * s <= b * s) by (nonlinear_arith)
            requires
                1 <= a <= b,
                s >= 1,
        ;
    }
}

/// C-order byte strides: the last axis steps by one element, each earlier
/// axis by the next axis' stride times its extent.
pub fn compute_strides(shape: &Vec<i32>, itemsize: usize) -> (r: Vec<i32>)
    requires
        shape@.len() >= 1,
        valid_shape(shape@),
        1 <= itemsize <= 8,
        fits_layout(shape@, itemsize as int),
    ensures
        are_c_strides(shape@, r@, itemsize as int),
{
    let n = shape.len();
    let mut strides: Vec<i32> = Vec::new();
    while strides.len() < n
        invariant
            strides@.len() <= n,
        decreases n - strides@.len(),
    {
        strides.push(0);
    }
    proof {
        lemma_suffix_prod_mono(shape@, 0, n as int);
        assert(suffix_prod(shape@, n as int) == 1);
    }
    strides.set(n - 1, itemsize as i32);
    let mut i: usize = n - 1;
    while i > 0
        invariant
            n == shape@.len(),
            strides@.len() == n,
            i <= n - 1,
            valid_shape(shape@),
            1 <= itemsize <= 8,
            fits_layout(shape@, itemsize as int),
            forall|j: int| i <= j < n ==> #[trigger] strides@[j] as int == c_stride(shape@, itemsize as int, j),
        decreases i,
    {
        proof {
            lemma_suffix_prod_mono(shape@, 0, i as int);
            lemma_suffix_prod_pos(shape@, i + 1);
            let s = itemsize as int;
            let d = shape@[i as int] as int;
            let p = suffix_prod(shape@, i + 1);
            let q = suffix_prod(shape@, i as int);
            assert(q == d * p);
            assert(s * p * d == s * q && s * q <= shape_prod(shape@) * s) by (nonlinear_arith)
                requires
                    q == d * p,
                    q <= shape_prod(shape@),
                    s >= 1,
            ;
        }
        let v = strides[i] * shape[i];
        strides.set(i - 1, v);
        i = i - 1;
    }
    strides
}

/// A C-order stride times one less than its extent stays within the byte
/// size of the array.
proof fn lemma_c_stride_span(shape: Seq<i32>, strides: Seq<i32>, s: int)
    requires
        valid_shape(shape),
        1 <= s,
        fits_layout(shape, s),
        are_c_strides(shape, strides, s),
    ensures
        forall|j: int|
            0 <= j < shape.len() ==> 0 <= #[trigger] strides[j] * (shape[j] - 1) <= i32::MAX,
{
    assert forall|j: int| 0 <= j < shape.len() implies 0 <= #[trigger] strides[j] * (shape[j] - 1)
        <= i32::MAX by {
        lemma_suffix_prod_mono(shape, 0, j);
        lemma_suffix_prod_pos(shape, j + 1);
        let d = shape[j] as int;
        let p = suffix_prod(shape, j + 1);
        let q = suffix_prod(shape, j);
        let st = strides[j] as int;
        assert(q == d * p);
        assert(st == s * p);
        assert(0 <= st * (d - 1) <= shape_prod(shape) * s) by (nonlinear_arith)
            requires
                st == s * p,
                q == d * p,
                q <= shape_prod(shape),
                s >= 1,
                p >= 1,
                d >= 1,
        ;
    }
}

/// Back-strides: minus the stride times one less than the extent.
pub fn compute_backstrides(shape: &Vec<i32>, strides: &Vec<i32>) -> (r: Vec<i32>)
    requires
        valid_shape(shape@),
        strides@.len() == shape@.len(),
        forall|j: int|
            0 <= j < shape@.len() ==> 0 <= #[trigger] strides@[j] * (shape@[j] - 1) <= i32::MAX,
    ensures
        are_backstrides(shape@, strides@, r@),
{
    let n = shape.len();
    let mut back: Vec<i32> = Vec::new();
    let mut i: usize = 0;
    while i < n
        invariant
            n == shape@.len(),
            strides@.len() == n,
            valid_shape(shape@),
            forall|j: int|
                0 <= j < n ==> 0 <= #[trigger] strides@[j] * (shape@[j] - 1) <= i32::MAX,
            i <= n,
            back@.len() == i,
            forall|j: int| 0 <= j < i ==> #[trigger] back@[j] as int == -(strides@[j] as int) * (
            shape@[j] as int - 1),
        decreases n - i,
    {
        proof {
            let st = strides@[i as int] as int;
            let d = shape@[i as int] as int;
            assert(0 <= strides@[i as int] * (shape@[i as int] - 1));
            assert(-(st * (d - 1)) == -st * (d - 1)) by (nonlinear_arith);
        }
        let v = -(strides[i] * (shape[i] - 1));
        back.push(v);
        i = i + 1;
    }
    back
}

} // verus!
