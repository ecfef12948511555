//! Index geometry: the mathematical model of C-ordered (row-major) layouts,
//! and the stride and back-stride computations.
use vstd::prelude::*;

verus! {

/// Every extent of the shape is positive.
pub open spec fn valid_shape(shape: Seq<i32>) -> bool {
    forall|j: int| 0 <= j < shape.len() ==> shape[j] > 0
}

/// Product of the extents from axis `k` to the last axis (1 past the end).
pub open spec fn suffix_prod(shape: Seq<i32>, k: int) -> int
    decreases shape.len() - k,
{
    if 0 <= k < shape.len() {
        shape[k] as int * suffix_prod(shape, k + 1)
    } else {
        1
    }
}

/// Number of elements of an array of this shape.
pub open spec fn shape_prod(shape: Seq<i32>) -> int {
    suffix_prod(shape, 0)
}

/// An array of this shape, with elements of `itemsize` bytes, has byte
/// offsets that fit in an `i32`.
pub open spec fn fits_layout(shape: Seq<i32>, itemsize: int) -> bool {
    shape_prod(shape) * itemsize <= i32::MAX
}

pub open spec fn to_ints(s: Seq<i32>) -> Seq<int> {
    s.map_values(|x: i32| x as int)
}

/// `c` is a coordinate tuple inside the shape.
pub open spec fn valid_coord(shape: Seq<i32>, c: Seq<int>) -> bool {
    &&& c.len() == shape.len()
    &&& forall|j: int| 0 <= j < c.len() ==> 0 <= #[trigger] c[j] < shape[j]
}

/// Row-major offset contributed by the first `k` coordinates: axis `j`
/// weighs the product of the extents after it.
pub open spec fn ravel_upto(shape: Seq<i32>, c: Seq<int>, k: int) -> int
    decreases k,
{
    if k <= 0 {
        0
    } else {
        ravel_upto(shape, c, k - 1) + c[k - 1] * suffix_prod(shape, k)
    }
}

/// Row-major (C-order) element offset of a coordinate tuple.
pub open spec fn ravel(shape: Seq<i32>, c: Seq<int>) -> int {
    ravel_upto(shape, c, shape.len() as int)
}

/// The C-order stride of axis `j`, in bytes, for elements of `itemsize` bytes.
pub open spec fn c_stride(shape: Seq<i32>, itemsize: int, j: int) -> int {
    itemsize * suffix_prod(shape, j + 1)
}

pub proof fn lemma_suffix_prod_pos(shape: Seq<i32>, k: int)
    requires
        valid_shape(shape),
    ensures
        suffix_prod(shape, k) >= 1,
    decreases shape.len() - k,
{
    if 0 <= k < shape.len() {
        lemma_suffix_prod_pos(shape, k + 1);
        let a = shape[k] as int;
        let b = suffix_prod(shape, k + 1);
        assert(a * b >= 1) by (nonlinear_arith)
            requires
                a >= 1,
                b >= 1,
        ;
    }
}

/// Suffix products shrink as the starting axis moves right.
pub proof fn lemma_suffix_prod_mono(shape: Seq<i32>, j: int, k: int)
    requires
        valid_shape(shape),
        0 <= j <= k,
    ensures
        suffix_prod(shape, k) <= suffix_prod(shape, j),
    decreases k - j,
{
    if j < k {
        lemma_suffix_prod_mono(shape, j + 1, k);
        if j < shape.len() {
            lemma_suffix_prod_pos(shape, j + 1);
            let a = shape[j] as int;
            let b = suffix_prod(shape, j + 1);
            assert(b <= a * b) by (nonlinear_arith)
                requires
                    a >= 1,
                    b >= 1,
            ;
        }
    }
}

/// A valid coordinate's partial offset stays below the remaining block.
pub proof fn lemma_ravel_bound(shape: Seq<i32>, c: Seq<int>, k: int)
    requires
        valid_shape(shape),
        valid_coord(shape, c),
        0 <= k <= shape.len(),
    ensures
        0 <= ravel_upto(shape, c, k),
        ravel_upto(shape, c, k) + suffix_prod(shape, k) <= shape_prod(shape),
    decreases k,
{
    if k > 0 {
        lemma_ravel_bound(shape, c, k - 1);
        lemma_suffix_prod_pos(shape, k);
        let x = c[k - 1];
        let e = shape[k - 1] as int;
        let p = suffix_prod(shape, k);
        assert(0 <= x * p && x * p + p <= e * p) by (nonlinear_arith)
            requires
                0 <= x < e,
                p >= 1,
        ;
    }
}

/// The offset of a valid coordinate lies inside the array.
pub proof fn lemma_ravel_in_range(shape: Seq<i32>, c: Seq<int>)
    requires
        valid_shape(shape),
        valid_coord(shape, c),
    ensures
        0 <= ravel(shape, c) < shape_prod(shape),
{
    lemma_ravel_bound(shape, c, shape.len() as int);
}

/// Changing one coordinate moves the offset by the change times its weight.
pub proof fn lemma_ravel_update(shape: Seq<i32>, c: Seq<int>, j: int, v: int, k: int)
    requires
        0 <= j < c.len(),
        0 <= k <= c.len(),
    ensures
        ravel_upto(shape, c.update(j, v), k) == ravel_upto(shape, c, k) + if j < k {
            (v - c[j]) * suffix_prod(shape, j + 1)
        } else {
            0
        },
    decreases k,
{
    if k > 0 {
        lemma_ravel_update(shape, c, j, v, k - 1);
        if k - 1 == j {
            let p = suffix_prod(shape, k);
            let old_v = c[j];
            assert(v * p == old_v * p + (v - old_v) * p) by (nonlinear_arith);
        }
    }
}

pub proof fn lemma_suffix_prod_drop_last(shape: Seq<i32>, k: int)
    requires
        shape.len() >= 1,
        0 <= k <= shape.len() - 1,
    ensures
        suffix_prod(shape, k) == suffix_prod(shape.drop_last(), k) * shape.last(),
    decreases shape.len() - k,
{
    let s2 = shape.drop_last();
    if k < shape.len() - 1 {
        lemma_suffix_prod_drop_last(shape, k + 1);
        let a = shape[k] as int;
        let b = suffix_prod(s2, k + 1);
        let l = shape.last() as int;
        assert(a * (b * l) == (a * b) * l) by (nonlinear_arith);
    } else {
        assert(suffix_prod(shape, k + 1) == 1);
        assert(suffix_prod(s2, k) == 1);
    }
}

proof fn lemma_ravel_upto_drop_last(shape: Seq<i32>, c: Seq<int>, k: int)
    requires
        shape.len() >= 1,
        c.len() == shape.len(),
        0 <= k <= shape.len() - 1,
    ensures
        ravel_upto(shape, c, k) == ravel_upto(shape.drop_last(), c.drop_last(), k)
            * shape.last(),
    decreases k,
{
    if k > 0 {
        lemma_ravel_upto_drop_last(shape, c, k - 1);
        lemma_suffix_prod_drop_last(shape, k);
        let r = ravel_upto(shape.drop_last(), c.drop_last(), k - 1);
        let x = c[k - 1];
        let p = suffix_prod(shape.drop_last(), k);
        let l = shape.last() as int;
        assert(r * l + x * (p * l) == (r + x * p) * l) by (nonlinear_arith);
    }
}

/// Horner form of the row-major offset.
pub proof fn lemma_ravel_horner(shape: Seq<i32>, c: Seq<int>)
    requires
        shape.len() >= 1,
        c.len() == shape.len(),
    ensures
        ravel(shape, c) == ravel(shape.drop_last(), c.drop_last()) * shape.last() + c.last(),
{
    let n = shape.len() as int;
    lemma_ravel_upto_drop_last(shape, c, n - 1);
    assert(suffix_prod(shape, n) == 1);
}

/// Distinct valid coordinates have distinct offsets.
pub proof fn lemma_ravel_injective(shape: Seq<i32>, c1: Seq<int>, c2: Seq<int>)
    requires
        valid_shape(shape),
        valid_coord(shape, c1),
        valid_coord(shape, c2),
        ravel(shape, c1) == ravel(shape, c2),
    ensures
        c1 == c2,
    decreases shape.len(),
{
    if shape.len() == 0 {
        assert(c1 =~= c2);
    } else {
        let s2 = shape.drop_last();
        let d1 = c1.drop_last();
        let d2 = c2.drop_last();
        assert(valid_coord(s2, d1));
        assert(valid_coord(s2, d2));
        lemma_ravel_horner(shape, c1);
        lemma_ravel_horner(shape, c2);
        lemma_ravel_bound(s2, d1, s2.len() as int);
        lemma_ravel_bound(s2, d2, s2.len() as int);
        let r1 = ravel(s2, d1);
        let r2 = ravel(s2, d2);
        let x1 = c1.last();
        let x2 = c2.last();
        let l = shape.last() as int;
        assert(r1 == r2 && x1 == x2) by (nonlinear_arith)
            requires
                r1 * l + x1 == r2 * l + x2,
                0 <= x1 < l,
                0 <= x2 < l,
                r1 >= 0,
                r2 >= 0,
        ;
        lemma_ravel_injective(s2, d1, d2);
        assert(c1 =~= c2) by {
            assert(forall|j: int| 0 <= j < s2.len() ==> c1[j] == d1[j]);
            assert(forall|j: int| 0 <= j < s2.len() ==> c2[j] == d2[j]);
        }
    }
}

} // verus!

verus! {

/// The partial offset depends only on the coordinates it covers.
pub proof fn lemma_ravel_upto_prefix(shape: Seq<i32>, c1: Seq<int>, c2: Seq<int>, k: int)
    requires
        0 <= k <= c1.len(),
        k <= c2.len(),
        forall|j: int| 0 <= j < k ==> c1[j] == c2[j],
    ensures
        ravel_upto(shape, c1, k) == ravel_upto(shape, c2, k),
    decreases k,
{
    if k > 0 {
        lemma_ravel_upto_prefix(shape, c1, c2, k - 1);
    }
}

} // verus!
