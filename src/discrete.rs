use vstd::prelude::*;

verus! {

/// A bounded integer type that ranges can be built over.
///
/// Each value stands for the mathematical integer `as_int()`, which lies
/// between `min_int()` and `max_int()`. Stepping past either end saturates
/// instead of wrapping.
pub trait Discrete: Copy + Sized {
    spec fn as_int(self) -> int;

    spec fn min_int() -> int;

    spec fn max_int() -> int;

    proof fn lemma_in_bounds(x: Self)
        ensures
            Self::min_int() <= x.as_int() <= Self::max_int(),
    ;

    proof fn lemma_injective(x: Self, y: Self)
        ensures
            x.as_int() == y.as_int() ==> x == y,
    ;

    fn zero() -> (r: Self)
        ensures
            r.as_int() == 0,
    ;

    fn is_less(&self, other: &Self) -> (r: bool)
        ensures
            r == (self.as_int() < other.as_int()),
    ;

    fn is_same(&self, other: &Self) -> (r: bool)
        ensures
            r == (self.as_int() == other.as_int()),
    ;

    /// The next value, or the value itself at the maximum.
    fn saturating_succ(&self) -> (r: Self)
        ensures
            r.as_int() == if self.as_int() < Self::max_int() {
                self.as_int() + 1
            } else {
                self.as_int()
            },
    ;

    /// The previous value, or the value itself at the minimum.
    fn saturating_pred(&self) -> (r: Self)
        ensures
            r.as_int() == if self.as_int() > Self::min_int() {
                self.as_int() - 1
            } else {
                self.as_int()
            },
    ;
}

impl Discrete for u8 {
    open spec fn as_int(self) -> int {
        self as int
    }

    open spec fn min_int() -> int {
        0
    }

    open spec fn max_int() -> int {
        u8::MAX as int
    }

    proof fn lemma_in_bounds(x: Self) {
    }

    proof fn lemma_injective(x: Self, y: Self) {
    }

    fn zero() -> (r: Self) {
        0
    }

    fn is_less(&self, other: &Self) -> (r: bool) {
        *self < *other
    }

    fn is_same(&self, other: &Self) -> (r: bool) {
        *self == *other
    }

    fn saturating_succ(&self) -> (r: Self) {
        if *self < u8::MAX {
            *self + 1
        } else {
            *self
        }
    }

    fn saturating_pred(&self) -> (r: Self) {
        if *self > u8::MIN {
            *self - 1
        } else {
            *self
        }
    }
}

impl Discrete for u16 {
    open spec fn as_int(self) -> int {
        self as int
    }

    open spec fn min_int() -> int {
        0
    }

    open spec fn max_int() -> int {
        u16::MAX as int
    }

    proof fn lemma_in_bounds(x: Self) {
    }

    proof fn lemma_injective(x: Self, y: Self) {
    }

    fn zero() -> (r: Self) {
        0
    }

    fn is_less(&self, other: &Self) -> (r: bool) {
        *self < *other
    }

    fn is_same(&self, other: &Self) -> (r: bool) {
        *self == *other
    }

    fn saturating_succ(&self) -> (r: Self) {
        if *self < u16::MAX {
            *self + 1
        } else {
            *self
        }
    }

    fn saturating_pred(&self) -> (r: Self) {
        if *self > u16::MIN {
            *self - 1
        } else {
            *self
        }
    }
}

impl Discrete for u32 {
    open spec fn as_int(self) -> int {
        self as int
    }

    open spec fn min_int() -> int {
        0
    }

    open spec fn max_int() -> int {
        u32::MAX as int
    }

    proof fn lemma_in_bounds(x: Self) {
    }

    proof fn lemma_injective(x: Self, y: Self) {
    }

    fn zero() -> (r: Self) {
        0
    }

    fn is_less(&self, other: &Self) -> (r: bool) {
        *self < *other
    }

    fn is_same(&self, other: &Self) -> (r: bool) {
        *self == *other
    }

    fn saturating_succ(&self) -> (r: Self) {
        if *self < u32::MAX {
            *self + 1
        } else {
            *self
        }
    }

    fn saturating_pred(&self) -> (r: Self) {
        if *self > u32::MIN {
            *self - 1
        } else {
            *self
        }
    }
}

impl Discrete for u64 {
    open spec fn as_int(self) -> int {
        self as int
    }

    open spec fn min_int() -> int {
        0
    }

    open spec fn max_int() -> int {
        u64::MAX as int
    }

    proof fn lemma_in_bounds(x: Self) {
    }

    proof fn lemma_injective(x: Self, y: Self) {
    }

    fn zero() -> (r: Self) {
        0
    }

    fn is_less(&self, other: &Self) -> (r: bool) {
        *self < *other
    }

    fn is_same(&self, other: &Self) -> (r: bool) {
        *self == *other
    }

    fn saturating_succ(&self) -> (r: Self) {
        if *self < u64::MAX {
            *self + 1
        } else {
            *self
        }
    }

    fn saturating_pred(&self) -> (r: Self) {
        if *self > u64::MIN {
            *self - 1
        } else {
            *self
        }
    }
}

impl Discrete for u128 {
    open spec fn as_int(self) -> int {
        self as int
    }

    open spec fn min_int() -> int {
        0
    }

    open spec fn max_int() -> int {
        u128::MAX as int
    }

    proof fn lemma_in_bounds(x: Self) {
    }

    proof fn lemma_injective(x: Self, y: Self) {
    }

    fn zero() -> (r: Self) {
        0
    }

    fn is_less(&self, other: &Self) -> (r: bool) {
        *self < *other
    }

    fn is_same(&self, other: &Self) -> (r: bool) {
        *self == *other
    }

    fn saturating_succ(&self) -> (r: Self) {
        if *self < u128::MAX {
            *self + 1
        } else {
            *self
        }
    }

    fn saturating_pred(&self) -> (r: Self) {
        if *self > u128::MIN {
            *self - 1
        } else {
            *self
        }
    }
}

impl Discrete for usize {
    open spec fn as_int(self) -> int {
        self as int
    }

    open spec fn min_int() -> int {
        0
    }

    open spec fn max_int() -> int {
        usize::MAX as int
    }

    proof fn lemma_in_bounds(x: Self) {
    }

    proof fn lemma_injective(x: Self, y: Self) {
    }

    fn zero() -> (r: Self) {
        0
    }

    fn is_less(&self, other: &Self) -> (r: bool) {
        *self < *other
    }

    fn is_same(&self, other: &Self) -> (r: bool) {
        *self == *other
    }

    fn saturating_succ(&self) -> (r: Self) {
        if *self < usize::MAX {
            *self + 1
        } else {
            *self
        }
    }

    fn saturating_pred(&self) -> (r: Self) {
        if *self > usize::MIN {
            *self - 1
        } else {
            *self
        }
    }
}

impl Discrete for i8 {
    open spec fn as_int(self) -> int {
        self as int
    }

    open spec fn min_int() -> int {
        i8::MIN as int
    }

    open spec fn max_int() -> int {
        i8::MAX as int
    }

    proof fn lemma_in_bounds(x: Self) {
    }

    proof fn lemma_injective(x: Self, y: Self) {
    }

    fn zero() -> (r: Self) {
        0
    }

    fn is_less(&self, other: &Self) -> (r: bool) {
        *self < *other
    }

    fn is_same(&self, other: &Self) -> (r: bool) {
        *self == *other
    }

    fn saturating_succ(&self) -> (r: Self) {
        if *self < i8::MAX {
            *self + 1
        } else {
            *self
        }
    }

    fn saturating_pred(&self) -> (r: Self) {
        if *self > i8::MIN {
            *self - 1
        } else {
            *self
        }
    }
}

impl Discrete for i16 {
    open spec fn as_int(self) -> int {
        self as int
    }

    open spec fn min_int() -> int {
        i16::MIN as int
    }

    open spec fn max_int() -> int {
        i16::MAX as int
    }

    proof fn lemma_in_bounds(x: Self) {
    }

    proof fn lemma_injective(x: Self, y: Self) {
    }

    fn zero() -> (r: Self) {
        0
    }

    fn is_less(&self, other: &Self) -> (r: bool) {
        *self < *other
    }

    fn is_same(&self, other: &Self) -> (r: bool) {
        *self == *other
    }

    fn saturating_succ(&self) -> (r: Self) {
        if *self < i16::MAX {
            *self + 1
        } else {
            *self
        }
    }

    fn saturating_pred(&self) -> (r: Self) {
        if *self > i16::MIN {
            *self - 1
        } else {
            *self
        }
    }
}

impl Discrete for i32 {
    open spec fn as_int(self) -> int {
        self as int
    }

    open spec fn min_int() -> int {
        i32::MIN as int
    }

    open spec fn max_int() -> int {
        i32::MAX as int
    }

    proof fn lemma_in_bounds(x: Self) {
    }

    proof fn lemma_injective(x: Self, y: Self) {
    }

    fn zero() -> (r: Self) {
        0
    }

    fn is_less(&self, other: &Self) -> (r: bool) {
        *self < *other
    }

    fn is_same(&self, other: &Self) -> (r: bool) {
        *self == *other
    }

    fn saturating_succ(&self) -> (r: Self) {
        if *self < i32::MAX {
            *self + 1
        } else {
            *self
        }
    }

    fn saturating_pred(&self) -> (r: Self) {
        if *self > i32::MIN {
            *self - 1
        } else {
            *self
        }
    }
}

impl Discrete for i64 {
    open spec fn as_int(self) -> int {
        self as int
    }

    open spec fn min_int() -> int {
        i64::MIN as int
    }

    open spec fn max_int() -> int {
        i64::MAX as int
    }

    proof fn lemma_in_bounds(x: Self) {
    }

    proof fn lemma_injective(x: Self, y: Self) {
    }

    fn zero() -> (r: Self) {
        0
    }

    fn is_less(&self, other: &Self) -> (r: bool) {
        *self < *other
    }

    fn is_same(&self, other: &Self) -> (r: bool) {
        *self == *other
    }

    fn saturating_succ(&self) -> (r: Self) {
        if *self < i64::MAX {
            *self + 1
        } else {
            *self
        }
    }

    fn saturating_pred(&self) -> (r: Self) {
        if *self > i64::MIN {
            *self - 1
        } else {
            *self
        }
    }
}

impl Discrete for i128 {
    open spec fn as_int(self) -> int {
        self as int
    }

    open spec fn min_int() -> int {
        i128::MIN as int
    }

    open spec fn max_int() -> int {
        i128::MAX as int
    }

    proof fn lemma_in_bounds(x: Self) {
    }

    proof fn lemma_injective(x: Self, y: Self) {
    }

    fn zero() -> (r: Self) {
        0
    }

    fn is_less(&self, other: &Self) -> (r: bool) {
        *self < *other
    }

    fn is_same(&self, other: &Self) -> (r: bool) {
        *self == *other
    }

    fn saturating_succ(&self) -> (r: Self) {
        if *self < i128::MAX {
            *self + 1
        } else {
            *self
        }
    }

    fn saturating_pred(&self) -> (r: Self) {
        if *self > i128::MIN {
            *self - 1
        } else {
            *self
        }
    }
}

impl Discrete for isize {
    open spec fn as_int(self) -> int {
        self as int
    }

    open spec fn min_int() -> int {
        isize::MIN as int
    }

    open spec fn max_int() -> int {
        isize::MAX as int
    }

    proof fn lemma_in_bounds(x: Self) {
    }

    proof fn lemma_injective(x: Self, y: Self) {
    }

    fn zero() -> (r: Self) {
        0
    }

    fn is_less(&self, other: &Self) -> (r: bool) {
        *self < *other
    }

    fn is_same(&self, other: &Self) -> (r: bool) {
        *self == *other
    }

    fn saturating_succ(&self) -> (r: Self) {
        if *self < isize::MAX {
            *self + 1
        } else {
            *self
        }
    }

    fn saturating_pred(&self) -> (r: Self) {
        if *self > isize::MIN {
            *self - 1
        } else {
            *self
        }
    }
}

} // verus!
