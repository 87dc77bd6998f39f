//! Points, sizes and boxes, and the lengths that sizes are given in.

use vstd::prelude::*;

use crate::number::{law_fixed_multiplies_within_a_step, Fixed, Number, Same};

verus! {

/// A place, measured from the top left.
#[derive(Clone, Copy, Debug)]
pub struct Point<N> {
    pub x: N,
    pub y: N,
}

/// A width and a height.
#[derive(Clone, Copy, Debug)]
pub struct Size<N> {
    pub width: N,
    pub height: N,
}

/// A box: its top left corner and its size.
#[derive(Clone, Copy, Debug)]
pub struct Bounds<N> {
    pub origin: Point<N>,
    pub size: Size<N>,
}

impl<N: Number> Point<N> {
    /// This place moved by `by`.
    pub open spec fn spec_moved(self, by: Point<N>) -> Point<N> {
        Point { x: self.x.spec_plus(by.x), y: self.y.spec_plus(by.y) }
    }

    /// This place moved by `by`.
    pub fn moved(self, by: Point<N>) -> (r: Point<N>)
        ensures
            r == self.spec_moved(by),
    {
        Point { x: self.x.plus(by.x), y: self.y.plus(by.y) }
    }
}

impl<N: Number> Size<N> {
    /// No width and no height.
    pub open spec fn spec_nothing() -> Size<N> {
        Size { width: N::spec_zero(), height: N::spec_zero() }
    }

    /// No width and no height.
    pub fn nothing() -> (r: Size<N>)
        ensures
            r == Self::spec_nothing(),
    {
        Size { width: N::zero(), height: N::zero() }
    }

    /// Both sides are longer than nothing.
    pub open spec fn spec_has_area(self) -> bool {
        N::spec_zero().spec_below(self.width) && N::spec_zero().spec_below(self.height)
    }

    /// Tells whether both sides are longer than nothing.
    pub fn has_area(self) -> (b: bool)
        ensures
            b == self.spec_has_area(),
    {
        N::zero().below(self.width) && N::zero().below(self.height)
    }
}

impl<N: Number> Same for Size<N> {
    open spec fn same(self, other: Self) -> bool {
        self.width.same(other.width) && self.height.same(other.height)
    }

    fn is_same(&self, other: &Self) -> (b: bool) {
        self.width.is_same(&other.width) && self.height.is_same(&other.height)
    }
}

/// A length in pixels, or in multiples of the root font size.
#[derive(Clone, Copy, Debug)]
pub enum AbsoluteLength<N> {
    Pixels(N),
    Rems(N),
}

impl<N: Number> AbsoluteLength<N> {
    /// The length in pixels where the root font size is `rem_size`.
    pub open spec fn spec_to_pixels(self, rem_size: N) -> N {
        match self {
            AbsoluteLength::Pixels(pixels) => pixels,
            AbsoluteLength::Rems(rems) => rem_size.spec_times(rems),
        }
    }

    /// The length in pixels where the root font size is `rem_size`.
    pub fn to_pixels(self, rem_size: N) -> (r: N)
        ensures
            r == self.spec_to_pixels(rem_size),
    {
        match self {
            AbsoluteLength::Pixels(pixels) => pixels,
            AbsoluteLength::Rems(rems) => rem_size.times(rems),
        }
    }
}

impl<N: Number> Same for AbsoluteLength<N> {
    open spec fn same(self, other: Self) -> bool {
        match (self, other) {
            (AbsoluteLength::Pixels(a), AbsoluteLength::Pixels(b)) => a.same(b),
            (AbsoluteLength::Rems(a), AbsoluteLength::Rems(b)) => a.same(b),
            _ => false,
        }
    }

    fn is_same(&self, other: &Self) -> (b: bool) {
        match (self, other) {
            (AbsoluteLength::Pixels(a), AbsoluteLength::Pixels(b)) => a.is_same(b),
            (AbsoluteLength::Rems(a), AbsoluteLength::Rems(b)) => a.is_same(b),
            _ => false,
        }
    }
}

/// An absolute length, or a fraction of a base length.
#[derive(Clone, Copy, Debug)]
pub enum DefiniteLength<N> {
    Absolute(AbsoluteLength<N>),
    Fraction(N),
}

impl<N: Number> DefiniteLength<N> {
    /// The length in pixels, as a part of `base` where it is a fraction.
    pub open spec fn spec_to_pixels(self, base: AbsoluteLength<N>, rem_size: N) -> N {
        match self {
            DefiniteLength::Absolute(length) => length.spec_to_pixels(rem_size),
            DefiniteLength::Fraction(fraction) => base.spec_to_pixels(rem_size).spec_times(fraction),
        }
    }

    /// The length in pixels, as a part of `base` where it is a fraction.
    pub fn to_pixels(self, base: AbsoluteLength<N>, rem_size: N) -> (r: N)
        ensures
            r == self.spec_to_pixels(base, rem_size),
    {
        match self {
            DefiniteLength::Absolute(length) => length.to_pixels(rem_size),
            DefiniteLength::Fraction(fraction) => base.to_pixels(rem_size).times(fraction),
        }
    }
}

impl<N: Number> Same for DefiniteLength<N> {
    open spec fn same(self, other: Self) -> bool {
        match (self, other) {
            (DefiniteLength::Absolute(a), DefiniteLength::Absolute(b)) => a.same(b),
            (DefiniteLength::Fraction(a), DefiniteLength::Fraction(b)) => a.same(b),
            _ => false,
        }
    }

    fn is_same(&self, other: &Self) -> (b: bool) {
        match (self, other) {
            (DefiniteLength::Absolute(a), DefiniteLength::Absolute(b)) => a.is_same(b),
            (DefiniteLength::Fraction(a), DefiniteLength::Fraction(b)) => a.is_same(b),
            _ => false,
        }
    }
}

/// Moving a place adds to each of its coordinates.
pub proof fn law_moving_adds(place: Point<Fixed>, by: Point<Fixed>)
    requires
        i64::MIN <= place.x.raw + by.x.raw <= i64::MAX,
        i64::MIN <= place.y.raw + by.y.raw <= i64::MAX,
    ensures
        place.spec_moved(by).x.raw == place.x.raw + by.x.raw,
        place.spec_moved(by).y.raw == place.y.raw + by.y.raw,
{
}

/// A length in pixels is what it says; one in rems is so many times the root
/// font size, and a fraction is that part of its base, both up to a step.
pub proof fn law_lengths_count_their_units(
    length: Fixed,
    base: Fixed,
    rem_size: Fixed,
)
    requires
        i64::MIN * 65536 <= rem_size.raw * length.raw <= i64::MAX * 65536,
        i64::MIN * 65536 <= base.raw * length.raw <= i64::MAX * 65536,
    ensures
        ({
            let on = AbsoluteLength::Pixels(base);
            let pixels = DefiniteLength::Absolute(AbsoluteLength::Pixels(length)).spec_to_pixels(
                on,
                rem_size,
            );
            let rems = DefiniteLength::Absolute(AbsoluteLength::Rems(length)).spec_to_pixels(
                on,
                rem_size,
            ).raw;
            let part = DefiniteLength::Fraction(length).spec_to_pixels(on, rem_size).raw;
            &&& pixels == length
            &&& rems * 65536 <= rem_size.raw * length.raw < (rems + 1) * 65536
            &&& part * 65536 <= base.raw * length.raw < (part + 1) * 65536
        }),
{
    law_fixed_multiplies_within_a_step(rem_size, length);
    law_fixed_multiplies_within_a_step(base, length);
}

/// A size has an area where both its sides have a length.
pub proof fn law_area_takes_both_sides(size: Size<Fixed>)
    ensures
        size.spec_has_area() <==> size.width.raw > 0 && size.height.raw > 0,
{
}

} // verus!
