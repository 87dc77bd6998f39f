//! How large an image is in its line.

use std::sync::Arc;

use vstd::prelude::*;

use crate::backend::{Backend, InlineFlowTypography};
use crate::geometry::{AbsoluteLength, DefiniteLength, Size};
use crate::item::{views, ItemView, MeasureItem};
use crate::kit::Kit;
use crate::number::{
    law_fixed_divides_within_a_step, law_fixed_multiplies_within_a_step,
    law_fixed_ratio_within_a_step, Fixed, Number,
};

verus! {

/// A length, or one pixel where that is more.
pub open spec fn at_least_one<N: Number>(length: N) -> N {
    length.spec_larger(N::spec_ratio(1, 1))
}

/// The size of an image of which no side is given: three quarters of the line
/// high and as wide as its own shape makes it, or square where it has none.
pub open spec fn size_for_line<N: Number>(intrinsic: Option<Size<N>>, line_height: N) -> Size<N> {
    let height = line_height.spec_times(N::spec_ratio(3, 4));
    let shape = match intrinsic {
        Some(size) if size.spec_has_area() => size.width.spec_over(size.height),
        _ => N::spec_ratio(1, 1),
    };
    Size { width: at_least_one(height.spec_times(shape)), height: at_least_one(height) }
}

/// The size of an image in a line: the sides that are given, and for a side
/// that is not, what the shape of the image makes of the other one.
pub open spec fn size_of_image<N: Number>(
    width: Option<DefiniteLength<N>>,
    height: Option<DefiniteLength<N>>,
    intrinsic: Option<Size<N>>,
    line_height: N,
    rem_size: N,
) -> Size<N> {
    let base = AbsoluteLength::Pixels(line_height);
    match (width, height) {
        (Some(width), Some(height)) => Size {
            width: width.spec_to_pixels(base, rem_size),
            height: height.spec_to_pixels(base, rem_size),
        },
        (Some(width), None) => {
            let width = width.spec_to_pixels(base, rem_size);
            Size {
                width,
                height: match intrinsic {
                    Some(size) if size.spec_has_area() => width.spec_times(
                        size.height.spec_over(size.width),
                    ),
                    _ => line_height,
                },
            }
        },
        (None, Some(height)) => {
            let height = height.spec_to_pixels(base, rem_size);
            Size {
                width: match intrinsic {
                    Some(size) if size.spec_has_area() => height.spec_times(
                        size.width.spec_over(size.height),
                    ),
                    _ => height,
                },
                height,
            }
        },
        (None, None) => size_for_line(intrinsic, line_height),
    }
}

/// What an image's own size counts for: nothing, where a side has no length.
pub open spec fn usable_size<N: Number>(measured: Size<N>) -> Option<Size<N>> {
    if measured.width.spec_at_most(N::spec_zero()) || measured.height.spec_at_most(N::spec_zero()) {
        None
    } else {
        Some(measured)
    }
}

/// The size of an image of which no side is given.
pub fn inline_image_size_for_line<N: Number>(
    intrinsic_size: Option<Size<N>>,
    line_height: N,
) -> (r: Size<N>)
    ensures
        r == size_for_line(intrinsic_size, line_height),
{
    let height: N = line_height.times(N::ratio(3, 4));
    let mut aspect_ratio: N = N::ratio(1, 1);
    if let Some(size) = intrinsic_size {
        if size.has_area() {
            aspect_ratio = size.width.over(size.height);
        }
    }
    let one: N = N::ratio(1, 1);
    Size { width: height.times(aspect_ratio).larger(one), height: height.larger(one) }
}

/// The size of an image in a line.
pub fn image_size<N: Number>(
    width: Option<DefiniteLength<N>>,
    height: Option<DefiniteLength<N>>,
    intrinsic_size: Option<Size<N>>,
    line_height: N,
    rem_size: N,
) -> (r: Size<N>)
    ensures
        r == size_of_image(width, height, intrinsic_size, line_height, rem_size),
{
    let base = AbsoluteLength::Pixels(line_height);
    match (width, height) {
        (Some(width), Some(height)) => Size {
            width: width.to_pixels(base, rem_size),
            height: height.to_pixels(base, rem_size),
        },
        (Some(width), None) => {
            let width: N = width.to_pixels(base, rem_size);
            let mut height: N = line_height;
            if let Some(size) = intrinsic_size {
                if size.has_area() {
                    height = width.times(size.height.over(size.width));
                }
            }
            Size { width, height }
        },
        (None, Some(height)) => {
            let height: N = height.to_pixels(base, rem_size);
            let mut width: N = height;
            if let Some(size) = intrinsic_size {
                if size.has_area() {
                    width = height.times(size.width.over(size.height));
                }
            }
            Size { width, height }
        },
        (None, None) => inline_image_size_for_line(intrinsic_size, line_height),
    }
}

/// What an image's own size counts for.
pub fn intrinsic_image_size<N: Number>(measured: Size<N>) -> (r: Option<Size<N>>)
    ensures
        r == usable_size(measured),
{
    if measured.width.at_most(N::zero()) || measured.height.at_most(N::zero()) {
        None
    } else {
        Some(measured)
    }
}

/// Whether the image of item `ix` may come out as `size`. The window is asked
/// for the image's own size only where a side is not given.
pub open spec fn is_measured_image<K: Kit, B: Backend<K>>(
    backend: &B,
    typography: &InlineFlowTypography<K>,
    ix: usize,
    source: &Arc<K::Source>,
    width: Option<DefiniteLength<K::Num>>,
    height: Option<DefiniteLength<K::Num>>,
    size: Size<K::Num>,
) -> bool {
    if width is Some && height is Some {
        size == size_of_image(width, height, None, typography.line_height, typography.rem_size)
    } else {
        exists|measured: Size<K::Num>| #[trigger]
            call_ensures(B::image_size, (backend, ix, source, width, height), measured) && size
                == size_of_image(
                width,
                height,
                usable_size(measured),
                typography.line_height,
                typography.rem_size,
            )
    }
}

/// Measures the image of item `ix`.
pub fn measure_image_size<K: Kit, B: Backend<K>>(
    ix: usize,
    source: &Arc<K::Source>,
    width: Option<DefiniteLength<K::Num>>,
    height: Option<DefiniteLength<K::Num>>,
    typography: &InlineFlowTypography<K>,
    backend: &B,
) -> (r: Size<K::Num>)
    ensures
        is_measured_image(backend, typography, ix, source, width, height, r),
{
    let intrinsic_size: Option<Size<K::Num>> = if width.is_some() && height.is_some() {
        None
    } else {
        intrinsic_image_size(backend.image_size(ix, source, width, height))
    };
    image_size(width, height, intrinsic_size, typography.line_height, typography.rem_size)
}

/// Whether `sizes` are sizes that the images of a flow may come out as, at
/// the places of their items.
pub open spec fn is_image_sizes<K: Kit, B: Backend<K>>(
    backend: &B,
    typography: &InlineFlowTypography<K>,
    items: Seq<ItemView<K>>,
    sizes: Seq<Option<Size<K::Num>>>,
) -> bool {
    &&& sizes.len() == items.len()
    &&& forall|ix: int|
        #![trigger sizes[ix]]
        0 <= ix < sizes.len() ==> match items[ix] {
            ItemView::Image { source, width, height } => sizes[ix] is Some && is_measured_image(
                backend,
                typography,
                ix as usize,
                &source,
                width,
                height,
                sizes[ix]->0,
            ),
            _ => sizes[ix] is None,
        }
}

/// Measures the images of a flow.
pub fn measure_images<K: Kit, B: Backend<K>>(
    items: &[MeasureItem<K>],
    typography: &InlineFlowTypography<K>,
    backend: &B,
) -> (r: Vec<Option<Size<K::Num>>>)
    ensures
        is_image_sizes(backend, typography, views(items@), r@),
{
    let ghost all = views(items@);
    let mut out: Vec<Option<Size<K::Num>>> = Vec::new();
    for ix in 0..items.len()
        invariant
            all == views(items@),
            is_image_sizes(backend, typography, all.take(ix as int), out@),
    {
        assert(all[ix as int] == items@[ix as int]@);
        let size: Option<Size<K::Num>> = match &items[ix] {
            MeasureItem::Image { source, width, height } => Some(
                measure_image_size(ix, source, *width, *height, typography, backend),
            ),
            MeasureItem::Text { .. } | MeasureItem::Object { .. } => None,
        };
        out.push(size);
    }
    assert(all.take(all.len() as int) =~= all);
    out
}

/// A side that follows from a given one: as long as the given side times the
/// ratio of the sides of an image, up to rounding.
proof fn lemma_side_in_proportion(given: Fixed, other: Fixed, own: Fixed)
    requires
        given.raw >= 0,
        other.raw > 0,
        own.raw > 0,
        other.raw * 65536 <= i64::MAX * own.raw,
        given.raw * other.raw <= i64::MAX * own.raw,
    ensures
        ({
            let side = given.spec_times(other.spec_over(own)).raw;
            &&& side * own.raw <= given.raw * other.raw
            &&& given.raw * other.raw * 65536 <= ((side + 1) * 65536 + given.raw) * own.raw
        }),
{
    let (w, a, b) = (given.raw as int, other.raw as int, own.raw as int);
    let ratio = other.spec_over(own);
    assert(i64::MIN * b <= a * 65536) by (nonlinear_arith)
        requires
            a > 0,
            b > 0,
    ;
    law_fixed_divides_within_a_step(other, own);
    let q = ratio.raw as int;
    assert(0 <= q) by (nonlinear_arith)
        requires
            a > 0,
            b > 0,
            a * 65536 < (q + 1) * b,
    ;
    assert(0 <= w * q) by (nonlinear_arith)
        requires
            w >= 0,
            q >= 0,
    ;
    assert(w * q <= i64::MAX * 65536) by (nonlinear_arith)
        requires
            w >= 0,
            b > 0,
            q * b <= a * 65536,
            w * a <= i64::MAX * b,
    ;
    law_fixed_multiplies_within_a_step(given, ratio);
    let side = given.spec_times(ratio).raw as int;
    assert(side * b <= w * a) by (nonlinear_arith)
        requires
            w >= 0,
            b > 0,
            q * b <= a * 65536,
            side * 65536 <= w * q,
    ;
    assert(w * a * 65536 <= ((side + 1) * 65536 + w) * b) by (nonlinear_arith)
        requires
            w >= 0,
            b > 0,
            a * 65536 < (q + 1) * b,
            w * q < (side + 1) * 65536,
    ;
}

/// An image of which the width alone is given keeps that width and its own
/// shape, up to rounding, however high the line is.
pub proof fn law_given_width_keeps_the_shape(
    given: DefiniteLength<Fixed>,
    own: Size<Fixed>,
    line_height: Fixed,
    rem_size: Fixed,
)
    requires
        ({
            let width = given.spec_to_pixels(AbsoluteLength::Pixels(line_height), rem_size);
            &&& width.raw >= 0
            &&& own.width.raw > 0
            &&& own.height.raw > 0
            &&& own.height.raw * 65536 <= i64::MAX * own.width.raw
            &&& width.raw * own.height.raw <= i64::MAX * own.width.raw
        }),
    ensures
        ({
            let size = size_of_image(Some(given), None, Some(own), line_height, rem_size);
            &&& size.width == given.spec_to_pixels(AbsoluteLength::Pixels(line_height), rem_size)
            &&& size.height.raw * own.width.raw <= size.width.raw * own.height.raw
            &&& size.width.raw * own.height.raw * 65536 <= ((size.height.raw + 1) * 65536
                + size.width.raw) * own.width.raw
        }),
{
    let width = given.spec_to_pixels(AbsoluteLength::Pixels(line_height), rem_size);
    lemma_side_in_proportion(width, own.height, own.width);
}

/// An image of which the height alone is given keeps that height and its own
/// shape, up to rounding, however high the line is.
pub proof fn law_given_height_keeps_the_shape(
    given: DefiniteLength<Fixed>,
    own: Size<Fixed>,
    line_height: Fixed,
    rem_size: Fixed,
)
    requires
        ({
            let height = given.spec_to_pixels(AbsoluteLength::Pixels(line_height), rem_size);
            &&& height.raw >= 0
            &&& own.width.raw > 0
            &&& own.height.raw > 0
            &&& own.width.raw * 65536 <= i64::MAX * own.height.raw
            &&& height.raw * own.width.raw <= i64::MAX * own.height.raw
        }),
    ensures
        ({
            let size = size_of_image(None, Some(given), Some(own), line_height, rem_size);
            &&& size.height == given.spec_to_pixels(AbsoluteLength::Pixels(line_height), rem_size)
            &&& size.width.raw * own.height.raw <= size.height.raw * own.width.raw
            &&& size.height.raw * own.width.raw * 65536 <= ((size.width.raw + 1) * 65536
                + size.height.raw) * own.height.raw
        }),
{
    let height = given.spec_to_pixels(AbsoluteLength::Pixels(line_height), rem_size);
    lemma_side_in_proportion(height, own.width, own.height);
}

/// A side that is given in pixels is the same on every line, and so is the
/// other one of an image that has a shape.
pub proof fn law_given_side_does_not_follow_the_line<N: Number>(
    side: N,
    own: Size<N>,
    line_height: N,
    other_line_height: N,
    rem_size: N,
)
    requires
        own.spec_has_area(),
    ensures
        ({
            let given = Some(DefiniteLength::Absolute(AbsoluteLength::Pixels(side)));
            &&& size_of_image(given, None, Some(own), line_height, rem_size) == size_of_image(
                given,
                None,
                Some(own),
                other_line_height,
                rem_size,
            )
            &&& size_of_image(None, given, Some(own), line_height, rem_size) == size_of_image(
                None,
                given,
                Some(own),
                other_line_height,
                rem_size,
            )
        }),
{
}

/// An image of which no side is given is three quarters of the line high and
/// keeps its own shape, up to rounding, where that is not under a pixel.
pub proof fn law_image_in_a_line_keeps_the_shape(
    own: Size<Fixed>,
    line_height: Fixed,
    rem_size: Fixed,
)
    requires
        own.width.raw > 0,
        own.height.raw > 0,
        4 * 65536 <= 3 * line_height.raw,
        3 * line_height.raw <= i64::MAX,
        own.width.raw * 65536 <= i64::MAX * own.height.raw,
        line_height.raw * own.width.raw <= i64::MAX * own.height.raw,
    ensures
        ({
            let size = size_of_image(None, None, Some(own), line_height, rem_size);
            &&& 4 * size.height.raw <= 3 * line_height.raw < 4 * size.height.raw + 4
            &&& size.width.raw >= 65536
            &&& size.height.raw * own.width.raw * 65536 <= ((size.width.raw + 1) * 65536
                + size.height.raw) * own.height.raw
            &&& size.width.raw > 65536 ==> size.width.raw * own.height.raw <= size.height.raw
                * own.width.raw
        }),
{
    law_fixed_ratio_within_a_step(3, 4);
    law_fixed_ratio_within_a_step(1, 1);
    let (three, one) = (Fixed::spec_ratio(3, 4), Fixed::spec_ratio(1, 1));
    assert(three.raw == 49152);
    assert(one.raw == 65536);
    let line = line_height.raw as int;
    assert(line * 49152 == 16384 * (3 * line)) by (nonlinear_arith);
    law_fixed_multiplies_within_a_step(line_height, three);
    let height = line_height.spec_times(three);
    assert(4 * height.raw <= 3 * line < 4 * height.raw + 4);
    assert(height.raw * own.width.raw <= i64::MAX * own.height.raw) by (nonlinear_arith)
        requires
            0 <= height.raw <= line_height.raw,
            own.width.raw > 0,
            line_height.raw * own.width.raw <= i64::MAX * own.height.raw,
    ;
    lemma_side_in_proportion(height, own.width, own.height);
    let side = height.spec_times(own.width.spec_over(own.height)).raw as int;
    let size = size_of_image(None, None, Some(own), line_height, rem_size);
    assert(size.height.raw == height.raw);
    assert(size.width.raw == side || (size.width.raw == 65536 && side <= 65536));
    assert(((side + 1) * 65536 + height.raw) * own.height.raw <= ((size.width.raw + 1) * 65536
        + height.raw) * own.height.raw) by (nonlinear_arith)
        requires
            side <= size.width.raw,
            own.height.raw > 0,
    ;
}

/// An image on a line of less than a pixel and a third is one pixel high, and
/// no wider than three quarters of the line make it, or one pixel.
pub proof fn law_image_on_a_low_line(own: Size<Fixed>, line_height: Fixed, rem_size: Fixed)
    requires
        own.width.raw > 0,
        own.height.raw > 0,
        0 <= 3 * line_height.raw < 4 * 65536,
        own.width.raw * 65536 <= i64::MAX * own.height.raw,
        line_height.raw * own.width.raw <= i64::MAX * own.height.raw,
    ensures
        ({
            let size = size_of_image(None, None, Some(own), line_height, rem_size);
            &&& size.height.raw == 65536
            &&& size.width.raw >= 65536
            &&& size.width.raw == 65536 || 4 * (size.width.raw * own.height.raw) <= 3 * (
            line_height.raw * own.width.raw)
        }),
{
    assert(Fixed::spec_ratio(3, 4).raw == 49152);
    assert(Fixed::spec_ratio(1, 1).raw == 65536);
    let line = line_height.raw as int;
    assert(line * 49152 == 16384 * (3 * line)) by (nonlinear_arith);
    law_fixed_multiplies_within_a_step(line_height, Fixed::spec_ratio(3, 4));
    let height = line_height.spec_times(Fixed::spec_ratio(3, 4));
    assert(height.raw * own.width.raw <= i64::MAX * own.height.raw) by (nonlinear_arith)
        requires
            0 <= height.raw <= line_height.raw,
            own.width.raw > 0,
            line_height.raw * own.width.raw <= i64::MAX * own.height.raw,
    ;
    lemma_side_in_proportion(height, own.width, own.height);
    assert(4 * (height.raw * own.width.raw) <= 3 * (line_height.raw * own.width.raw))
        by (nonlinear_arith)
        requires
            4 * height.raw <= 3 * line_height.raw,
            own.width.raw > 0,
    ;
}

/// An image of which both sides are given takes them, each for itself,
/// whatever its own size is.
pub proof fn law_both_given_sides_are_taken<N: Number>(
    width: DefiniteLength<N>,
    height: DefiniteLength<N>,
    own: Option<Size<N>>,
    line_height: N,
    rem_size: N,
)
    ensures
        ({
            let size = size_of_image(Some(width), Some(height), own, line_height, rem_size);
            let line = AbsoluteLength::Pixels(line_height);
            &&& size.width == width.spec_to_pixels(line, rem_size)
            &&& size.height == height.spec_to_pixels(line, rem_size)
        }),
{
}

/// An image without a shape of its own is a line high where its width alone is
/// given, and a square otherwise.
pub proof fn law_image_without_a_shape<N: Number>(
    side: N,
    own: Option<Size<N>>,
    line_height: N,
    rem_size: N,
)
    requires
        own matches Some(size) ==> !(N::spec_zero().spec_below(size.width)
            && N::spec_zero().spec_below(size.height)),
    ensures
        ({
            let given = DefiniteLength::Absolute(AbsoluteLength::Pixels(side));
            let wide = size_of_image(Some(given), None, own, line_height, rem_size);
            let high = size_of_image(None, Some(given), own, line_height, rem_size);
            &&& wide.width == side && wide.height == line_height
            &&& high.width == side && high.height == side
        }),
{
}

/// An image without a shape of its own and without a given side is a square of
/// three quarters of the line, or of a pixel.
pub proof fn law_image_without_shape_or_sides_is_a_square(
    own: Option<Size<Fixed>>,
    line_height: Fixed,
    rem_size: Fixed,
)
    requires
        0 <= line_height.raw,
        own matches Some(size) ==> !(size.width.raw > 0 && size.height.raw > 0),
    ensures
        ({
            let size = size_of_image(None, None, own, line_height, rem_size);
            &&& size.width == size.height
            &&& 4 * 65536 <= 3 * line_height.raw ==> 4 * size.height.raw <= 3 * line_height.raw < 4
                * size.height.raw + 4
            &&& 3 * line_height.raw < 4 * 65536 ==> size.height.raw == 65536
        }),
{
    assert(Fixed::spec_ratio(3, 4).raw == 49152);
    assert(Fixed::spec_ratio(1, 1).raw == 65536);
    let line = line_height.raw as int;
    assert(line * 49152 == 16384 * (3 * line)) by (nonlinear_arith);
    law_fixed_multiplies_within_a_step(line_height, Fixed::spec_ratio(3, 4));
    let height = line_height.spec_times(Fixed::spec_ratio(3, 4));
    law_fixed_multiplies_within_a_step(height, Fixed::spec_ratio(1, 1));
    assert(height.spec_times(Fixed::spec_ratio(1, 1)) == height);
}

/// The size of an image counts for its shape only where both its sides have a
/// length.
pub proof fn law_only_an_area_counts(measured: Size<Fixed>)
    ensures
        usable_size(measured) == (if measured.width.raw > 0 && measured.height.raw > 0 {
            Some(measured)
        } else {
            None
        }),
{
}

/// An image comes out by the window's answer on itself: on its item, its
/// source and its sides. Where both sides are given, no answer counts.
pub proof fn law_image_is_measured_by_its_own_answer<K: Kit<Num = Fixed>, B: Backend<K>>(
    backend: &B,
    typography: &InlineFlowTypography<K>,
    items: Seq<ItemView<K>>,
    sizes: Seq<Option<Size<Fixed>>>,
    ix: int,
    own: Size<Fixed>,
)
    requires
        is_image_sizes(backend, typography, items, sizes),
        0 <= ix < items.len() <= usize::MAX,
        items[ix] matches ItemView::Image { source, width, height } && (width is None
            || height is None ==> forall|answer: Size<Fixed>| #[trigger]
            call_ensures(B::image_size, (backend, ix as usize, &source, width, height), answer)
                ==> answer == own),
    ensures
        items[ix] matches ItemView::Image { width, height, .. } ==> sizes[ix] == Some(
            size_of_image(
                width,
                height,
                if own.width.raw > 0 && own.height.raw > 0 {
                    Some(own)
                } else {
                    None
                },
                typography.line_height,
                typography.rem_size,
            ),
        ),
{
    assert(sizes[ix] is Some);
}

/// Images are measured at the places of their items, and nothing else is.
pub proof fn law_only_images_have_sizes<K: Kit, B: Backend<K>>(
    backend: &B,
    typography: &InlineFlowTypography<K>,
    items: Seq<ItemView<K>>,
    sizes: Seq<Option<Size<K::Num>>>,
)
    requires
        is_image_sizes(backend, typography, items, sizes),
    ensures
        sizes.len() == items.len(),
        forall|ix: int|
            #![trigger sizes[ix]]
            0 <= ix < items.len() ==> (sizes[ix] is Some <==> items[ix] is Image),
{
}

} // verus!
