use vstd::layout::size_of;
use vstd::prelude::*;

verus! {

/// The element types an array can hold: plain machine integers whose value
/// is a mathematical integer in a fixed range, combined with wrapping
/// addition and multiplication.
pub trait Element: Copy + Sized {
    /// The mathematical value of an element.
    spec fn as_int(self) -> int;

    /// Smallest representable value.
    spec fn min_int() -> int;

    /// Largest representable value.
    spec fn max_int() -> int;

    /// The additive identity.
    spec fn zero_spec() -> Self;

    /// Wrapping sum of two elements.
    spec fn sum_spec(a: Self, b: Self) -> Self;

    /// Wrapping product of two elements.
    spec fn product_spec(a: Self, b: Self) -> Self;

    fn zero() -> (r: Self)
        ensures
            r == Self::zero_spec(),
            r.as_int() == 0,
    ;

    fn elem_sum(self, other: Self) -> (r: Self)
        ensures
            r == Self::sum_spec(self, other),
    ;

    fn elem_product(self, other: Self) -> (r: Self)
        ensures
            r == Self::product_spec(self, other),
    ;

    fn to_wide(self) -> (r: i128)
        ensures
            r as int == self.as_int(),
    ;

    fn from_wide(v: i128) -> (r: Self)
        requires
            Self::min_int() <= v <= Self::max_int(),
        ensures
            r.as_int() == v,
    ;

    proof fn lemma_layout()
        ensures
            1 <= size_of::<Self>() <= 8,
            i64::MIN <= Self::min_int() <= 0,
            1 <= Self::max_int() <= i64::MAX,
    ;

    proof fn lemma_in_range(x: Self)
        ensures
            Self::min_int() <= x.as_int() <= Self::max_int(),
    ;
}

impl Element for i32 {
    open spec fn as_int(self) -> int {
        self as int
    }

    open spec fn min_int() -> int {
        i32::MIN as int
    }

    open spec fn max_int() -> int {
        i32::MAX as int
    }

    open spec fn zero_spec() -> i32 {
        0
    }

    open spec fn sum_spec(a: i32, b: i32) -> i32 {
        a.wrapping_add(b)
    }

    open spec fn product_spec(a: i32, b: i32) -> i32 {
        a.wrapping_mul(b)
    }

    fn zero() -> (r: i32) {
        0
    }

    fn elem_sum(self, other: i32) -> (r: i32) {
        self.wrapping_add(other)
    }

    fn elem_product(self, other: i32) -> (r: i32) {
        self.wrapping_mul(other)
    }

    fn to_wide(self) -> (r: i128) {
        self as i128
    }

    fn from_wide(v: i128) -> (r: i32) {
        v as i32
    }

    proof fn lemma_layout() {
        broadcast use vstd::layout::layout_of_primitives;

    }

    proof fn lemma_in_range(x: i32) {
    }
}

impl Element for i64 {
    open spec fn as_int(self) -> int {
        self as int
    }

    open spec fn min_int() -> int {
        i64::MIN as int
    }

    open spec fn max_int() -> int {
        i64::MAX as int
    }

    open spec fn zero_spec() -> i64 {
        0
    }

    open spec fn sum_spec(a: i64, b: i64) -> i64 {
        a.wrapping_add(b)
    }

    open spec fn product_spec(a: i64, b: i64) -> i64 {
        a.wrapping_mul(b)
    }

    fn zero() -> (r: i64) {
        0
    }

    fn elem_sum(self, other: i64) -> (r: i64) {
        self.wrapping_add(other)
    }

    fn elem_product(self, other: i64) -> (r: i64) {
        self.wrapping_mul(other)
    }

    fn to_wide(self) -> (r: i128) {
        self as i128
    }

    fn from_wide(v: i128) -> (r: i64) {
        v as i64
    }

    proof fn lemma_layout() {
        broadcast use vstd::layout::layout_of_primitives;

    }

    proof fn lemma_in_range(x: i64) {
    }
}

} // verus!
