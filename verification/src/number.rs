//! The numbers that lengths and factors are made of.

use vstd::prelude::*;

verus! {

/// Values that can be told apart.
///
/// An implementor owes that the answer depends on the two values alone.
pub trait Same: Sized {
    /// Whether the two values count as the same one.
    spec fn same(self, other: Self) -> bool;

    /// Tells whether the two values count as the same one.
    fn is_same(&self, other: &Self) -> (b: bool)
        ensures
            b == (*self).same(*other),
    ;
}

/// Whether two optional values are both absent, or both there and the same.
pub open spec fn same_option<T: Same>(a: Option<T>, b: Option<T>) -> bool {
    match (a, b) {
        (Some(x), Some(y)) => x.same(y),
        (None, None) => true,
        _ => false,
    }
}

/// Compares two optional values.
pub fn is_same_option<T: Same>(a: &Option<T>, b: &Option<T>) -> (r: bool)
    ensures
        r == same_option(*a, *b),
{
    match (a, b) {
        (Some(x), Some(y)) => x.is_same(y),
        (None, None) => true,
        _ => false,
    }
}

/// The arithmetic that layout is done in.
///
/// Layout fixes which operation is applied to which operands, and in which
/// order; how an operation rounds is the number's own affair. An implementor
/// owes no law of arithmetic, only that the result of an operation depends on
/// its operands alone, so binary floating point serves as well as `Fixed`.
pub trait Number: Copy + Same {
    spec fn spec_zero() -> Self;

    spec fn spec_ratio(num: u32, den: u32) -> Self;

    spec fn spec_plus(self, other: Self) -> Self;

    spec fn spec_minus(self, other: Self) -> Self;

    spec fn spec_times(self, other: Self) -> Self;

    spec fn spec_over(self, other: Self) -> Self;

    spec fn spec_larger(self, other: Self) -> Self;

    spec fn spec_smaller(self, other: Self) -> Self;

    spec fn spec_at_most(self, other: Self) -> bool;

    spec fn spec_below(self, other: Self) -> bool;

    /// The number that adds nothing.
    fn zero() -> (r: Self)
        ensures
            r == Self::spec_zero(),
    ;

    /// The number `num / den`.
    fn ratio(num: u32, den: u32) -> (r: Self)
        ensures
            r == Self::spec_ratio(num, den),
    ;

    /// `self + other`.
    fn plus(self, other: Self) -> (r: Self)
        ensures
            r == self.spec_plus(other),
    ;

    /// `self - other`.
    fn minus(self, other: Self) -> (r: Self)
        ensures
            r == self.spec_minus(other),
    ;

    /// `self * other`.
    fn times(self, other: Self) -> (r: Self)
        ensures
            r == self.spec_times(other),
    ;

    /// `self / other`.
    fn over(self, other: Self) -> (r: Self)
        ensures
            r == self.spec_over(other),
    ;

    /// The larger of the two numbers.
    fn larger(self, other: Self) -> (r: Self)
        ensures
            r == self.spec_larger(other),
    ;

    /// The smaller of the two numbers.
    fn smaller(self, other: Self) -> (r: Self)
        ensures
            r == self.spec_smaller(other),
    ;

    /// `self <= other`.
    fn at_most(self, other: Self) -> (b: bool)
        ensures
            b == self.spec_at_most(other),
    ;

    /// `self < other`.
    fn below(self, other: Self) -> (b: bool)
        ensures
            b == self.spec_below(other),
    ;
}

/// Whether the larger of two numbers depends neither on their order nor on how
/// they are grouped, and is the number itself where there is but one.
pub open spec fn larger_is_join<N: Number>() -> bool {
    &&& forall|a: N| #[trigger] a.spec_larger(a) == a
    &&& forall|a: N, b: N| #[trigger] a.spec_larger(b) == b.spec_larger(a)
    &&& forall|a: N, b: N, c: N| #[trigger]
        a.spec_larger(b).spec_larger(c) == a.spec_larger(b.spec_larger(c))
}

/// How many steps a `Fixed` has between two whole numbers.
pub const FIXED_ONE: i64 = 65536;

/// A fixed-point number: `raw` steps of `1 / FIXED_ONE`.
///
/// Sums, products and quotients are rounded down to a step and held within
/// what `raw` can hold.
#[derive(Clone, Copy, Debug, PartialEq, Eq, Structural)]
pub struct Fixed {
    pub raw: i64,
}

/// The value nearest to `value` that fits in an `i64`.
pub open spec fn clamped(value: int) -> i64 {
    if value > i64::MAX {
        i64::MAX
    } else if value < i64::MIN {
        i64::MIN
    } else {
        value as i64
    }
}

/// `num / den` rounded down; for a zero `den`, past every number on the side
/// of `num`.
pub open spec fn floor_quotient(num: int, den: int) -> int {
    if den > 0 {
        num / den
    } else if den < 0 {
        (-num) / (-den)
    } else if num > 0 {
        i64::MAX as int
    } else if num < 0 {
        i64::MIN as int
    } else {
        0
    }
}

fn clamp(value: i128) -> (r: i64)
    ensures
        r == clamped(value as int),
{
    if value > i64::MAX as i128 {
        i64::MAX
    } else if value < i64::MIN as i128 {
        i64::MIN
    } else {
        value as i64
    }
}

fn floor_over(num: i128, den: i128) -> (r: i128)
    requires
        den > 0,
        -0x4000_0000_0000_0000_0000_0000_0000_0000 <= num
            <= 0x4000_0000_0000_0000_0000_0000_0000_0000,
        den <= 0x8000_0000_0000_0000,
    ensures
        r == num as int / den as int,
{
    if num >= 0 {
        let q: u128 = (num as u128) / (den as u128);
        assert(q <= num) by (nonlinear_arith)
            requires
                q == num as int / den as int,
                num >= 0,
                den > 0,
        ;
        q as i128
    } else {
        let up: u128 = ((-num) as u128 + (den as u128 - 1)) / (den as u128);
        assert(up <= -num + den - 1 && -up == num as int / den as int) by (nonlinear_arith)
            requires
                up == (-num + den - 1) / (den as int),
                num < 0,
                den > 0,
        ;
        -(up as i128)
    }
}

fn divide(num: i128, den: i64) -> (r: i64)
    requires
        -0x4000_0000_0000_0000_0000_0000_0000_0000 <= num
            <= 0x4000_0000_0000_0000_0000_0000_0000_0000,
    ensures
        r == clamped(floor_quotient(num as int, den as int)),
{
    if den > 0 {
        clamp(floor_over(num, den as i128))
    } else if den < 0 {
        clamp(floor_over(-num, -(den as i128)))
    } else if num > 0 {
        i64::MAX
    } else if num < 0 {
        i64::MIN
    } else {
        0
    }
}

fn in_steps(value: i64) -> (r: i128)
    ensures
        r == value * FIXED_ONE,
        -0x1_0000_0000_0000_0000_0000 <= r <= 0x1_0000_0000_0000_0000_0000,
{
    value as i128 * 65536
}

impl Same for Fixed {
    open spec fn same(self, other: Self) -> bool {
        self == other
    }

    fn is_same(&self, other: &Self) -> (b: bool) {
        self.raw == other.raw
    }
}

impl Number for Fixed {
    open spec fn spec_zero() -> Self {
        Fixed { raw: 0 }
    }

    open spec fn spec_ratio(num: u32, den: u32) -> Self {
        Fixed { raw: clamped(floor_quotient(num * FIXED_ONE, den as int)) }
    }

    open spec fn spec_plus(self, other: Self) -> Self {
        Fixed { raw: clamped(self.raw + other.raw) }
    }

    open spec fn spec_minus(self, other: Self) -> Self {
        Fixed { raw: clamped(self.raw - other.raw) }
    }

    open spec fn spec_times(self, other: Self) -> Self {
        Fixed { raw: clamped((self.raw * other.raw) / FIXED_ONE as int) }
    }

    open spec fn spec_over(self, other: Self) -> Self {
        Fixed { raw: clamped(floor_quotient(self.raw * FIXED_ONE, other.raw as int)) }
    }

    open spec fn spec_larger(self, other: Self) -> Self {
        if self.raw < other.raw {
            other
        } else {
            self
        }
    }

    open spec fn spec_smaller(self, other: Self) -> Self {
        if other.raw < self.raw {
            other
        } else {
            self
        }
    }

    open spec fn spec_at_most(self, other: Self) -> bool {
        self.raw <= other.raw
    }

    open spec fn spec_below(self, other: Self) -> bool {
        self.raw < other.raw
    }

    fn zero() -> (r: Self) {
        Fixed { raw: 0 }
    }

    fn ratio(num: u32, den: u32) -> (r: Self) {
        Fixed { raw: divide(in_steps(num as i64), den as i64) }
    }

    fn plus(self, other: Self) -> (r: Self) {
        Fixed { raw: clamp(self.raw as i128 + other.raw as i128) }
    }

    fn minus(self, other: Self) -> (r: Self) {
        Fixed { raw: clamp(self.raw as i128 - other.raw as i128) }
    }

    fn times(self, other: Self) -> (r: Self) {
        let (a, b) = (self.raw as i128, other.raw as i128);
        assert(-0x4000_0000_0000_0000_0000_0000_0000_0000 <= a * b
            <= 0x4000_0000_0000_0000_0000_0000_0000_0000) by (nonlinear_arith)
            requires
                -0x8000_0000_0000_0000 <= a <= 0x7fff_ffff_ffff_ffff,
                -0x8000_0000_0000_0000 <= b <= 0x7fff_ffff_ffff_ffff,
        ;
        Fixed { raw: clamp(floor_over(a * b, FIXED_ONE as i128)) }
    }

    fn over(self, other: Self) -> (r: Self) {
        Fixed { raw: divide(in_steps(self.raw), other.raw) }
    }

    fn larger(self, other: Self) -> (r: Self) {
        if self.raw < other.raw {
            other
        } else {
            self
        }
    }

    fn smaller(self, other: Self) -> (r: Self) {
        if other.raw < self.raw {
            other
        } else {
            self
        }
    }

    fn at_most(self, other: Self) -> (b: bool) {
        self.raw <= other.raw
    }

    fn below(self, other: Self) -> (b: bool) {
        self.raw < other.raw
    }
}

/// Fixed-point numbers are ordered.
pub proof fn law_fixed_larger_is_join()
    ensures
        larger_is_join::<Fixed>(),
{
}

/// Quotients are rounded down.
proof fn lemma_floor(num: int, den: int)
    requires
        den > 0,
    ensures
        (num / den) * den <= num < (num / den + 1) * den,
{
    assert((num / den) * den <= num < (num / den + 1) * den) by (nonlinear_arith)
        requires
            den > 0,
    ;
}

/// Sums and differences of fixed-point numbers are exact where they fit.
pub proof fn law_fixed_adds_exactly(a: Fixed, b: Fixed)
    ensures
        i64::MIN <= a.raw + b.raw <= i64::MAX ==> a.spec_plus(b).raw == a.raw + b.raw,
        i64::MIN <= a.raw - b.raw <= i64::MAX ==> a.spec_minus(b).raw == a.raw - b.raw,
        Fixed::spec_zero().raw == 0,
{
}

/// Sums and differences that do not fit stop at the last number on their side.
pub proof fn law_fixed_saturates(a: Fixed, b: Fixed)
    ensures
        a.raw + b.raw > i64::MAX ==> a.spec_plus(b).raw == i64::MAX,
        a.raw + b.raw < i64::MIN ==> a.spec_plus(b).raw == i64::MIN,
        a.raw - b.raw > i64::MAX ==> a.spec_minus(b).raw == i64::MAX,
        a.raw - b.raw < i64::MIN ==> a.spec_minus(b).raw == i64::MIN,
{
}

/// A product of fixed-point numbers is less than a step below the exact one,
/// where it fits.
pub proof fn law_fixed_multiplies_within_a_step(a: Fixed, b: Fixed)
    requires
        i64::MIN * 65536 <= a.raw * b.raw <= i64::MAX * 65536,
    ensures
        a.spec_times(b).raw * 65536 <= a.raw * b.raw < (a.spec_times(b).raw + 1) * 65536,
{
    lemma_floor(a.raw * b.raw, 65536);
}

/// A quotient by a positive fixed-point number is less than a step below the
/// exact one, where it fits.
pub proof fn law_fixed_divides_within_a_step(a: Fixed, b: Fixed)
    requires
        b.raw > 0,
        i64::MIN * b.raw <= a.raw * 65536 <= i64::MAX * b.raw,
    ensures
        a.spec_over(b).raw * b.raw <= a.raw * 65536 < (a.spec_over(b).raw + 1) * b.raw,
{
    let (num, den) = (a.raw * 65536, b.raw as int);
    let q = num / den;
    lemma_floor(num, den);
    assert(i64::MIN <= q <= i64::MAX) by (nonlinear_arith)
        requires
            den > 0,
            q * den <= num < (q + 1) * den,
            i64::MIN * den <= num <= i64::MAX * den,
    ;
}

/// A quotient by a negative number is that of the two numbers with the other
/// sign, and a quotient by nothing is the last number on the side of the
/// dividend.
pub proof fn law_fixed_divides_by_any_sign(a: Fixed, b: Fixed)
    ensures
        b.raw < 0 && i64::MIN < b.raw && i64::MIN < a.raw ==> a.spec_over(b) == (Fixed {
            raw: (-a.raw) as i64,
        }).spec_over(Fixed { raw: (-b.raw) as i64 }),
        b.raw == 0 && a.raw > 0 ==> a.spec_over(b).raw == i64::MAX,
        b.raw == 0 && a.raw < 0 ==> a.spec_over(b).raw == i64::MIN,
        b.raw == 0 && a.raw == 0 ==> a.spec_over(b).raw == 0,
{
    assert((-a.raw) * 65536 == -(a.raw * 65536)) by (nonlinear_arith);
}

/// Products that do not fit stop at the last number on their side.
pub proof fn law_fixed_product_saturates(a: Fixed, b: Fixed)
    ensures
        a.raw * b.raw >= (i64::MAX + 1) * 65536 ==> a.spec_times(b).raw == i64::MAX,
        a.raw * b.raw < i64::MIN * 65536 ==> a.spec_times(b).raw == i64::MIN,
{
    lemma_floor(a.raw * b.raw, 65536);
}

/// A ratio is less than a step below the exact one.
pub proof fn law_fixed_ratio_within_a_step(num: u32, den: u32)
    requires
        den > 0,
    ensures
        Fixed::spec_ratio(num, den).raw * den <= num * 65536 < (Fixed::spec_ratio(num, den).raw
            + 1) * den,
{
    let q = (num * 65536) / den as int;
    lemma_floor(num * 65536, den as int);
    assert(0 <= q <= num * 65536) by (nonlinear_arith)
        requires
            den > 0,
            q * den <= num * 65536 < (q + 1) * den,
    ;
}

/// Fixed-point numbers are ordered as their steps are.
pub proof fn law_fixed_order(a: Fixed, b: Fixed)
    ensures
        a.spec_at_most(b) <==> a.raw <= b.raw,
        a.spec_below(b) <==> a.raw < b.raw,
        a.same(b) <==> a.raw == b.raw,
        a.spec_larger(b).raw == (if a.raw <= b.raw {
            b.raw
        } else {
            a.raw
        }),
        a.spec_smaller(b).raw == (if a.raw <= b.raw {
            a.raw
        } else {
            b.raw
        }),
{
}

} // verus!
