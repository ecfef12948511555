//! Array producers: ranges, random fills and reshaped copies.
use crate::array::{create_ok, Array, ArrayError};
use crate::element::Element;
use crate::geometry::{fits_layout, shape_prod, suffix_prod, valid_shape};
use vstd::layout::size_of;
use vstd::prelude::*;
use vstd::slice::slice_to_vec;

verus! {

/// Number of elements of `start, start + step, ...` below `end`:
/// the ceiling of `(end - start) / step`.
pub open spec fn arange_len(start: int, end: int, step: int) -> int {
    (end - start + step - 1) / step
}

/// Relies on rand's `Rng::random_range` over the thread-local generator:
/// a value drawn uniformly from the half-open range `low..high`.
#[verifier::external_body]
fn sample_uniform(low: i128, high: i128) -> (r: i128)
    requires
        low < high,
    ensures
        low <= r < high,
{
    rand::Rng::random_range(&mut rand::rng(), low..high)
}

/// The 1-D array `start, start + step, ...` of all values below `end`.
pub fn nr_arange<T: Element>(start: T, end: T, step: T) -> (r: Result<Array<T>, ArrayError>)
    ensures
        ({
            let len = arange_len(start.as_int(), end.as_int(), step.as_int());
            match r {
                Ok(a) => {
                    &&& start.as_int() < end.as_int()
                    &&& step.as_int() > 0
                    &&& a.wf()
                    &&& a.shape@ == seq![len as i32]
                    &&& a.totalsize == len
                    &&& forall|i: int|
                        0 <= i < len ==> (#[trigger] a.data@[i]).as_int() == start.as_int() + i
                            * step.as_int()
                },
                Err(e) => if start.as_int() >= end.as_int() || step.as_int() <= 0 {
                    e == ArrayError::InvalidRange
                } else {
                    e == ArrayError::InvalidShape && len * size_of::<T>() > i32::MAX
                },
            }
        }),
{
    proof {
        T::lemma_layout();
        T::lemma_in_range(start);
        T::lemma_in_range(end);
        T::lemma_in_range(step);
    }
    let s = start.to_wide();
    let e = end.to_wide();
    let st = step.to_wide();
    if s >= e || st <= 0 {
        return Err(ArrayError::InvalidRange);
    }
    let ghost d = e - s;
    assert(d > 0);
    let len = (e - s + st - 1) / st;
    proof {
        let (si, ei, ti, li) = (s as int, e as int, st as int, len as int);
        assert(li == (ei - si + ti - 1) / ti);
        assert(li * ti <= ei - si + ti - 1 && li >= 1) by (nonlinear_arith)
            requires
                li == (ei - si + ti - 1) / ti,
                ti > 0,
                ei - si > 0,
        ;
    }
    if len > i32::MAX as i128 {
        proof {
            assert(len * size_of::<T>() > i32::MAX) by (nonlinear_arith)
                requires
                    len > i32::MAX,
                    size_of::<T>() >= 1,
            ;
        }
        return Err(ArrayError::InvalidShape);
    }
    let shape: Vec<i32> = vec![len as i32];
    let mut arr = match Array::<T>::nr_create(shape.as_slice(), 1) {
        Ok(a) => a,
        Err(err) => {
            proof {
                assert(suffix_prod(shape@, 1) == 1);
                assert(shape_prod(shape@) == len);
            }
            return Err(err);
        },
    };
    proof {
        assert(suffix_prod(shape@, 1) == 1);
        assert(shape_prod(shape@) == len);
    }
    let n = len as usize;
    let mut i: usize = 0;
    while i < n
        invariant
            arr.wf(),
            arr.shape@ == shape@,
            shape@ == seq![len as i32],
            arr.totalsize == n,
            n == len,
            s == start.as_int(),
            st == step.as_int(),
            e == end.as_int(),
            len * st <= e - s + st - 1,
            st > 0,
            T::min_int() <= s,
            e <= T::max_int(),
            st <= T::max_int(),
            i64::MIN <= T::min_int(),
            T::max_int() <= i64::MAX,
            len <= i32::MAX,
            i <= n,
            forall|t: int| 0 <= t < i ==> (#[trigger] arr.data@[t]).as_int() == s + t * st,
        decreases n - i,
    {
        proof {
            let t = i as int;
            assert(s <= s + t * st < e && t * st <= len * st) by (nonlinear_arith)
                requires
                    0 <= t < len,
                    len * st <= e - s + st - 1,
                    st > 0,
            ;
            assert(t * st <= i32::MAX * i64::MAX) by (nonlinear_arith)
                requires
                    0 <= t <= i32::MAX,
                    0 < st <= i64::MAX,
            ;
        }
        let v = T::from_wide(s + (i as i128) * st);
        arr.data.set(i, v);
        i = i + 1;
    }
    Ok(arr)
}

/// A zero-filled array of the given shape whose elements are then drawn
/// uniformly from `low..high`.
pub fn nr_random<T: Element>(shape: &[i32], ndim: usize, low: T, high: T) -> (r: Result<
    Array<T>,
    ArrayError,
>)
    ensures
        match r {
            Ok(a) => {
                &&& low.as_int() < high.as_int()
                &&& create_ok(shape@, ndim as int, size_of::<T>() as int)
                &&& a.wf()
                &&& a.shape@ == shape@
                &&& a.totalsize == shape_prod(shape@)
                &&& forall|i: int|
                    0 <= i < a.totalsize ==> low.as_int() <= (#[trigger] a.data@[i]).as_int()
                        < high.as_int()
            },
            Err(e) => if low.as_int() >= high.as_int() {
                e == ArrayError::InvalidRange
            } else {
                e == ArrayError::InvalidShape && !create_ok(shape@, ndim as int, size_of::<T>() as int)
            },
        },
{
    proof {
        T::lemma_layout();
        T::lemma_in_range(low);
        T::lemma_in_range(high);
    }
    let lo = low.to_wide();
    let hi = high.to_wide();
    if lo >= hi {
        return Err(ArrayError::InvalidRange);
    }
    let mut arr = Array::<T>::nr_create(shape, ndim)?;
    let mut i: usize = 0;
    while i < arr.totalsize
        invariant
            arr.wf(),
            arr.shape@ == shape@,
            arr.totalsize == shape_prod(shape@),
            lo == low.as_int(),
            hi == high.as_int(),
            lo < hi,
            T::min_int() <= lo,
            hi <= T::max_int(),
            i <= arr.totalsize,
            forall|t: int| 0 <= t < i ==> lo <= (#[trigger] arr.data@[t]).as_int() < hi,
        decreases arr.totalsize - i,
    {
        let v = sample_uniform(lo, hi);
        arr.data.set(i, T::from_wide(v));
        i = i + 1;
    }
    Ok(arr)
}

/// Every extent is positive.
pub fn all_positive(shape: &[i32]) -> (r: bool)
    ensures
        r == valid_shape(shape@),
{
    let mut j: usize = 0;
    while j < shape.len()
        invariant
            j <= shape@.len(),
            forall|t: int| 0 <= t < j ==> #[trigger] shape@[t] > 0,
        decreases shape@.len() - j,
    {
        if shape[j] <= 0 {
            return false;
        }
        j = j + 1;
    }
    true
}

/// The shape has rank `ndim` at least one and positive extents.
pub open spec fn shape_ok(shape: Seq<i32>, ndim: int) -> bool {
    ndim >= 1 && shape.len() == ndim && valid_shape(shape)
}

/// A copy of the array's buffer, in its order, under a new shape that holds
/// as many elements.
pub fn nr_reshape_new<T: Element>(arr: &Array<T>, shape: &[i32], ndim: usize) -> (r: Result<
    Array<T>,
    ArrayError,
>)
    requires
        arr.wf(),
    ensures
        r is Ok <==> shape_ok(shape@, ndim as int) && shape_prod(shape@) == arr.totalsize,
        match r {
            Ok(a) => {
                &&& a.wf()
                &&& a.shape@ == shape@
                &&& a.data@ == arr.data@
            },
            Err(e) => if shape_ok(shape@, ndim as int) {
                e == ArrayError::InvalidReshape
            } else {
                e == ArrayError::InvalidShape
            },
        },
{
    if ndim == 0 || shape.len() != ndim || !all_positive(shape) {
        return Err(ArrayError::InvalidShape);
    }
    let mut res = match Array::<T>::nr_create(shape, ndim) {
        Ok(a) => a,
        Err(_) => {
            proof {
                assert(!fits_layout(shape@, arr.itemsize as int));
            }
            return Err(ArrayError::InvalidReshape);
        },
    };
    if res.totalsize != arr.totalsize {
        return Err(ArrayError::InvalidReshape);
    }
    res.data = slice_to_vec(arr.data.as_slice());
    Ok(res)
}

/// Reshaping to another shape and then back to the first one restores the
/// first shape and the data.
pub proof fn lemma_reshape_round_trip<T: Element>(
    a: Array<T>,
    s1: Seq<i32>,
    n1: int,
    r1: Array<T>,
    r2: Array<T>,
)
    requires
        a.wf(),
        shape_ok(s1, n1),
        shape_prod(s1) == a.totalsize,
        r1.wf(),
        r1.shape@ == s1,
        r1.data@ == a.data@,
        r2.wf(),
        r2.shape@ == a.shape@,
        r2.data@ == r1.data@,
    ensures
        shape_ok(a.shape@, a.ndim as int),
        shape_prod(a.shape@) == r1.totalsize,
        r2.shape@ == a.shape@,
        r2.data@ == a.data@,
{
}

} // verus!
