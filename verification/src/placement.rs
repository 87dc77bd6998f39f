//! Where the fragments of a flow lie, in fixed point.

use vstd::prelude::*;

use crate::backend::ShapedLine;
use crate::fragment::{
    centered_baseline, code_box, image_baseline, needed_height, tallest, FragmentView, KindView,
};
use crate::geometry::{Point, Size};
use crate::image::size_for_line;
use crate::kit::Kit;
use crate::layout::{
    ascent_of_first, descent_of_first, layout_of_lines, placed_line, placed_lines, top_after,
    widest, width_of_first, LineView, PositionedView,
};
use crate::number::{clamped, Fixed, Number, FIXED_ONE};

verus! {

/// Where a placed fragment starts.
pub open spec fn origin_of<K: Kit>(fragment: PositionedView<K>) -> Point<K::Num> {
    match fragment {
        PositionedView::Object { origin, .. } => origin,
        PositionedView::Text { origin, .. } => origin,
        PositionedView::Image { origin, .. } => origin,
    }
}

/// How large a placed fragment is.
pub open spec fn size_of<K: Kit>(fragment: PositionedView<K>) -> Size<K::Num> {
    match fragment {
        PositionedView::Object { object, .. } => object.metrics.size,
        PositionedView::Text { size, .. } => size,
        PositionedView::Image { size, .. } => size,
    }
}

/// The fragments of a line stand side by side: each starts where the one
/// before it ends, and the first at the left.
pub proof fn law_fragments_stand_side_by_side<K: Kit>(line: LineView<K>, y: K::Num, i: int)
    requires
        0 <= i < line.fragments.len(),
    ensures
        i == 0 ==> origin_of(placed_line(line, y)[i]).x == K::Num::spec_zero(),
        i > 0 ==> origin_of(placed_line(line, y)[i]).x == origin_of(
            placed_line(line, y)[i - 1],
        ).x.spec_plus(line.fragments[i - 1].size.width),
{
}

/// Whether no side of a fragment is negative, and an object is as large as
/// its fragment.
pub open spec fn sound_fragment<K: Kit<Num = Fixed>>(fragment: FragmentView<K>) -> bool {
    &&& fragment.size.width.raw >= 0
    &&& fragment.size.height.raw >= 0
    &&& fragment.baseline.raw >= 0
    &&& fragment.kind matches KindView::Object(object) ==> object.metrics.size == fragment.size
}

/// The widths of the first `n` fragments of a line, added up.
pub open spec fn width_sum<K: Kit<Num = Fixed>>(line: LineView<K>, n: int) -> int
    decreases n,
{
    if n <= 0 {
        0
    } else {
        width_sum(line, n - 1) + line.fragments[n - 1].size.width.raw
    }
}

/// Whether a line is of sound fragments on a sound body, and not too wide to
/// be counted.
pub open spec fn sound_line<K: Kit<Num = Fixed>>(line: LineView<K>) -> bool {
    &&& 0 <= line.body_baseline.raw <= line.body_height.raw
    &&& forall|i: int|
        #![trigger line.fragments[i]]
        0 <= i < line.fragments.len() ==> sound_fragment(line.fragments[i])
    &&& width_sum(line, line.fragments.len() as int) <= i64::MAX
}

/// The heights of the first `n` lines, added up.
pub open spec fn height_sum<K: Kit<Num = Fixed>>(lines: Seq<LineView<K>>, n: int) -> int
    decreases n,
{
    if n <= 0 {
        0
    } else {
        height_sum(lines, n - 1) + lines[n - 1].ascent().raw + lines[n - 1].descent().raw
    }
}

/// Whether lines are sound, and together not too high to be counted.
pub open spec fn sound_lines<K: Kit<Num = Fixed>>(lines: Seq<LineView<K>>) -> bool {
    &&& forall|i: int| #![trigger lines[i]] 0 <= i < lines.len() ==> sound_line(lines[i])
    &&& height_sum(lines, lines.len() as int) <= i64::MAX
}

proof fn lemma_extent<K: Kit<Num = Fixed>>(line: LineView<K>, n: int, i: int)
    requires
        0 <= i < n <= line.fragments.len(),
    ensures
        line.fragments[i].baseline.raw <= ascent_of_first(line, n).raw,
        clamped(line.fragments[i].size.height.raw - line.fragments[i].baseline.raw)
            <= descent_of_first(line, n).raw,
    decreases n,
{
    if i < n - 1 {
        lemma_extent(line, n - 1, i);
    }
}

proof fn lemma_body_extent<K: Kit<Num = Fixed>>(line: LineView<K>, n: int)
    requires
        0 <= n <= line.fragments.len(),
    ensures
        line.body_baseline.raw <= ascent_of_first(line, n).raw,
        clamped(line.body_height.raw - line.body_baseline.raw) <= descent_of_first(line, n).raw,
    decreases n,
{
    if n > 0 {
        lemma_body_extent(line, n - 1);
    }
}

/// A line has room for text in the font of its flow, above and below its
/// baseline, whatever else stands on it.
pub proof fn law_line_holds_its_body<K: Kit<Num = Fixed>>(line: LineView<K>)
    ensures
        line.body_baseline.raw <= line.ascent().raw,
        clamped(line.body_height.raw - line.body_baseline.raw) <= line.descent().raw,
{
    lemma_body_extent(line, line.fragments.len() as int);
}

/// All fragments of a line share one baseline: as far below the top of the
/// line as its ascent.
pub proof fn law_fragments_share_a_baseline<K: Kit<Num = Fixed>>(
    line: LineView<K>,
    y: Fixed,
    i: int,
)
    requires
        0 <= i < line.fragments.len(),
        i64::MIN <= y.raw + line.ascent().raw <= i64::MAX,
        i64::MIN <= y.raw + line.ascent().raw - line.fragments[i].baseline.raw <= i64::MAX,
    ensures
        origin_of(placed_line(line, y)[i]).y.raw + line.fragments[i].baseline.raw == y.raw
            + line.ascent().raw,
{
}

proof fn lemma_width_sum<K: Kit<Num = Fixed>>(line: LineView<K>, n: int)
    requires
        sound_line(line),
        0 <= n <= line.fragments.len(),
    ensures
        0 <= width_sum(line, n) <= width_sum(line, line.fragments.len() as int),
        width_of_first(line, n).raw == width_sum(line, n),
{
    lemma_width_sum_grows(line, n, line.fragments.len() as int);
    lemma_width_sum_grows(line, 0, n);
    lemma_width_counts(line, n);
}

proof fn lemma_width_sum_grows<K: Kit<Num = Fixed>>(line: LineView<K>, i: int, n: int)
    requires
        sound_line(line),
        0 <= i <= n <= line.fragments.len(),
    ensures
        width_sum(line, i) <= width_sum(line, n),
    decreases n,
{
    if i < n {
        lemma_width_sum_grows(line, i, n - 1);
        assert(sound_fragment(line.fragments[n - 1]));
    }
}

proof fn lemma_width_counts<K: Kit<Num = Fixed>>(line: LineView<K>, n: int)
    requires
        sound_line(line),
        0 <= n <= line.fragments.len(),
    ensures
        width_of_first(line, n).raw == width_sum(line, n),
    decreases n,
{
    if n > 0 {
        lemma_width_counts(line, n - 1);
        lemma_width_sum_grows(line, 0, n);
        lemma_width_sum_grows(line, n, line.fragments.len() as int);
    }
}

/// A sound line reaches as far as its baseline on both sides of it at least.
pub proof fn lemma_sound_extent<K: Kit<Num = Fixed>>(line: LineView<K>)
    requires
        sound_line(line),
    ensures
        line.ascent().raw >= 0,
        line.descent().raw >= 0,
{
    lemma_body_extent(line, line.fragments.len() as int);
}

/// More lines are no less high.
pub proof fn lemma_height_sum_grows<K: Kit<Num = Fixed>>(lines: Seq<LineView<K>>, i: int, n: int)
    requires
        sound_lines(lines),
        0 <= i <= n <= lines.len(),
    ensures
        height_sum(lines, i) <= height_sum(lines, n),
    decreases n,
{
    if i < n {
        lemma_height_sum_grows(lines, i, n - 1);
        lemma_sound_extent(lines[n - 1]);
    }
}

/// Each line starts where the lines above it end.
pub proof fn law_lines_stand_below_each_other<K: Kit<Num = Fixed>>(
    lines: Seq<LineView<K>>,
    n: int,
)
    requires
        sound_lines(lines),
        0 <= n <= lines.len(),
    ensures
        top_after(lines, n).raw == height_sum(lines, n),
        0 <= height_sum(lines, n),
    decreases n,
{
    if n > 0 {
        law_lines_stand_below_each_other(lines, n - 1);
        lemma_sound_extent(lines[n - 1]);
        lemma_height_sum_grows(lines, n, lines.len() as int);
    }
}

proof fn lemma_widest<K: Kit<Num = Fixed>>(lines: Seq<LineView<K>>, n: int, i: int)
    requires
        0 <= i < n <= lines.len(),
    ensures
        lines[i].width().raw <= widest(lines, n).raw,
    decreases n,
{
    if i < n - 1 {
        lemma_widest(lines, n - 1, i);
    }
}

/// Whether a placed fragment lies inside a flow of the given size.
pub open spec fn lies_inside<K: Kit<Num = Fixed>>(
    fragment: PositionedView<K>,
    size: Size<Fixed>,
) -> bool {
    let (origin, own) = (origin_of(fragment), size_of(fragment));
    &&& 0 <= origin.x.raw
    &&& origin.x.raw + own.width.raw <= size.width.raw
    &&& 0 <= origin.y.raw
    &&& origin.y.raw + own.height.raw <= size.height.raw
}

/// A fragment lies in its line: between the top and the bottom of it, and not
/// past its width.
pub proof fn law_fragment_lies_in_its_line<K: Kit<Num = Fixed>>(
    line: LineView<K>,
    y: Fixed,
    i: int,
)
    requires
        sound_line(line),
        0 <= y.raw,
        y.raw + line.ascent().raw + line.descent().raw <= i64::MAX,
        0 <= i < line.fragments.len(),
    ensures
        ({
            let fragment = placed_line(line, y)[i];
            let (origin, size) = (origin_of(fragment), size_of(fragment));
            &&& size == line.fragments[i].size
            &&& 0 <= origin.x.raw
            &&& origin.x.raw + size.width.raw <= line.width().raw
            &&& y.raw <= origin.y.raw
            &&& origin.y.raw + size.height.raw <= y.raw + line.ascent().raw + line.descent().raw
        }),
{
    let n = line.fragments.len() as int;
    let fragment = line.fragments[i];
    assert(sound_fragment(fragment));
    lemma_extent(line, n, i);
    lemma_sound_extent(line);
    lemma_width_sum(line, i);
    lemma_width_sum(line, n);
    lemma_width_sum_grows(line, i + 1, n);
    assert(fragment.size.height.raw - fragment.baseline.raw >= i64::MIN);
}

proof fn lemma_placed_lines_inside<K: Kit<Num = Fixed>>(lines: Seq<LineView<K>>, n: int, k: int)
    requires
        sound_lines(lines),
        0 <= n <= lines.len(),
        0 <= k < placed_lines(lines, n).len(),
    ensures
        lies_inside(
            placed_lines(lines, n)[k],
            layout_of_lines(lines, None).size,
        ),
    decreases n,
{
    let before = placed_lines(lines, n - 1);
    let all = lines.len() as int;
    if k < before.len() {
        lemma_placed_lines_inside(lines, n - 1, k);
    } else {
        let line = lines[n - 1];
        let y = top_after(lines, n - 1);
        law_lines_stand_below_each_other(lines, n - 1);
        law_lines_stand_below_each_other(lines, n);
        law_lines_stand_below_each_other(lines, all);
        lemma_height_sum_grows(lines, n, all);
        law_fragment_lies_in_its_line(line, y, k - before.len());
        lemma_widest(lines, all, n - 1);
        assert(placed_lines(lines, n)[k] == placed_line(line, y)[k - before.len()]);
    }
}

/// Every fragment lies inside the box that its flow reports as its size.
pub proof fn law_fragments_lie_inside_the_flow<K: Kit<Num = Fixed>>(
    lines: Seq<LineView<K>>,
    wrap_width: Option<Fixed>,
    k: int,
)
    requires
        sound_lines(lines),
        0 <= k < layout_of_lines(lines, wrap_width).fragments.len(),
    ensures
        lies_inside(
            layout_of_lines(lines, wrap_width).fragments[k],
            layout_of_lines(lines, wrap_width).size,
        ),
{
    lemma_placed_lines_inside(lines, lines.len() as int, k);
}

proof fn lemma_widest_at_most<K: Kit<Num = Fixed>>(lines: Seq<LineView<K>>, width: Fixed, n: int)
    requires
        0 <= n <= lines.len(),
    ensures
        widest(lines, n).raw <= width.raw <==> 0 <= width.raw && forall|i: int|
            #![trigger lines[i]]
            0 <= i < n ==> lines[i].width().raw <= width.raw,
    decreases n,
{
    if n > 0 {
        lemma_widest_at_most(lines, width, n - 1);
    }
}

/// A flow overflows a width only where one of its lines does.
pub proof fn law_flow_fits_where_its_lines_do<K: Kit<Num = Fixed>>(
    lines: Seq<LineView<K>>,
    wrap_width: Option<Fixed>,
    width: Fixed,
)
    requires
        0 <= width.raw,
    ensures
        layout_of_lines(lines, wrap_width).size.width.spec_at_most(width) <==> forall|i: int|
            #![trigger lines[i]]
            0 <= i < lines.len() ==> lines[i].width().spec_at_most(width),
{
    lemma_widest_at_most(lines, width, lines.len() as int);
}

/// The box behind a code span has its middle at the middle of the capital
/// height: it reaches as far above the capitals as below the baseline.
pub proof fn law_code_box_is_centered(
    cap_heights: Seq<Fixed>,
    descent: Fixed,
    font_size: Fixed,
    width: Fixed,
    baseline: Fixed,
)
    requires
        ({
            let cap_height = tallest(cap_heights).raw;
            let room = font_size.spec_times(Fixed::spec_ratio(1, 8)).spec_plus(
                descent.spec_over(Fixed::spec_ratio(2, 1)),
            ).raw;
            &&& i64::MIN <= baseline.raw - cap_height <= i64::MAX
            &&& i64::MIN <= baseline.raw - cap_height - room <= i64::MAX
            &&& i64::MIN <= 2 * room <= i64::MAX
            &&& i64::MIN <= cap_height + 2 * room <= i64::MAX
        }),
    ensures
        ({
            let area = code_box(cap_heights, descent, font_size, width, baseline);
            let top = area.origin.y.raw;
            let bottom = top + area.size.height.raw;
            baseline.raw - tallest(cap_heights).raw - top == bottom - baseline.raw
        }),
{
    let room = font_size.spec_times(Fixed::spec_ratio(1, 8)).spec_plus(
        descent.spec_over(Fixed::spec_ratio(2, 1)),
    ).raw;
    assert(Fixed::spec_ratio(2, 1).raw == 131072);
    assert((room * 131072) / 65536 == 2 * room) by (nonlinear_arith);
}

/// An image of which no side is given is at least one pixel wide and high.
pub proof fn law_image_is_never_empty(intrinsic: Option<Size<Fixed>>, line_height: Fixed)
    ensures
        size_for_line(intrinsic, line_height).width.raw >= FIXED_ONE,
        size_for_line(intrinsic, line_height).height.raw >= FIXED_ONE,
{
    assert(Fixed::spec_ratio(1, 1).raw == FIXED_ONE);
}

/// The baseline of an image runs through the image.
pub proof fn law_image_baseline_lies_in_the_image(
    height: Fixed,
    body_baseline: Fixed,
    line_height: Fixed,
)
    requires
        0 <= height.raw,
    ensures
        0 <= image_baseline(height, body_baseline, line_height).raw <= height.raw,
{
}

/// Placing a fragment changes nothing of what it shows: its item, its bytes,
/// its text with its marks, its size and its object are those it was measured
/// with.
pub proof fn law_placing_keeps_the_fragment<K: Kit>(line: LineView<K>, y: K::Num, i: int)
    requires
        0 <= i < line.fragments.len(),
    ensures
        ({
            let (placed, measured) = (placed_line(line, y)[i], line.fragments[i]);
            match measured.kind {
                KindView::Object(own) => placed matches PositionedView::Object {
                    item_ix,
                    object,
                    ..
                } && item_ix == measured.item_ix && object == own,
                KindView::Text {
                    font_size: own_size,
                    text: own_text,
                    links: own_links,
                    highlights: own_highlights,
                    code_background: own_background,
                } => placed matches PositionedView::Text {
                    item_ix,
                    size,
                    source_range,
                    font_size,
                    text,
                    links,
                    highlights,
                    code_background,
                    ..
                } && {
                    &&& item_ix == measured.item_ix
                    &&& size == measured.size
                    &&& source_range == measured.source_range
                    &&& font_size == own_size
                    &&& text == own_text
                    &&& links == own_links
                    &&& highlights == own_highlights
                    &&& code_background is Some <==> own_background is Some
                },
                KindView::Image => placed matches PositionedView::Image { item_ix, size, .. }
                    && item_ix == measured.item_ix && size == measured.size,
            }
        }),
{
}

/// The box behind code moves with its text: it lies as far from where the text
/// is placed as it was measured to, and keeps its size and its color.
pub proof fn law_code_box_moves_with_its_text<K: Kit<Num = Fixed>>(
    line: LineView<K>,
    y: Fixed,
    i: int,
)
    requires
        0 <= i < line.fragments.len(),
        line.fragments[i].kind is Text,
        line.fragments[i].kind->code_background matches Some((area, _)) && {
            let origin = origin_of(placed_line(line, y)[i]);
            &&& i64::MIN <= origin.x.raw + area.origin.x.raw <= i64::MAX
            &&& i64::MIN <= origin.y.raw + area.origin.y.raw <= i64::MAX
        },
    ensures
        (
            line.fragments[i].kind->code_background,
            placed_line(line, y)[i]->code_background,
        ) matches (Some((own, own_color)), Some((area, color))) && {
            let origin = origin_of(placed_line(line, y)[i]);
            &&& area.origin.x.raw - origin.x.raw == own.origin.x.raw
            &&& area.origin.y.raw - origin.y.raw == own.origin.y.raw
            &&& area.size == own.size
            &&& color == own_color
        },
{
}

proof fn lemma_extent_is_met<K: Kit<Num = Fixed>>(line: LineView<K>, n: int)
    requires
        0 <= n <= line.fragments.len(),
    ensures
        ascent_of_first(line, n) == line.body_baseline || exists|i: int|
            0 <= i < n && ascent_of_first(line, n) == (#[trigger] line.fragments[i]).baseline,
        descent_of_first(line, n).raw == clamped(line.body_height.raw - line.body_baseline.raw)
            || exists|i: int|
            0 <= i < n && descent_of_first(line, n).raw == clamped(
                (#[trigger] line.fragments[i]).size.height.raw - line.fragments[i].baseline.raw,
            ),
    decreases n,
{
    if n > 0 {
        lemma_extent_is_met(line, n - 1);
        let last = line.fragments[n - 1];
        if ascent_of_first(line, n) != last.baseline && ascent_of_first(line, n - 1)
            != line.body_baseline {
            let i = choose|i: int|
                0 <= i < n - 1 && ascent_of_first(line, n - 1) == (
                #[trigger] line.fragments[i]).baseline;
            assert(ascent_of_first(line, n) == line.fragments[i].baseline);
        }
    }
}

/// A line is no higher than what stands on it: its ascent is that of its body
/// or of one of its fragments, and so is its descent.
pub proof fn law_line_is_no_higher_than_needed<K: Kit<Num = Fixed>>(line: LineView<K>)
    ensures
        line.ascent() == line.body_baseline || exists|i: int|
            0 <= i < line.fragments.len() && line.ascent() == (
            #[trigger] line.fragments[i]).baseline,
        line.descent().raw == clamped(line.body_height.raw - line.body_baseline.raw) || exists|
            i: int,
        |
            0 <= i < line.fragments.len() && line.descent().raw == clamped(
                (#[trigger] line.fragments[i]).size.height.raw - line.fragments[i].baseline.raw,
            ),
{
    lemma_extent_is_met(line, line.fragments.len() as int);
}

proof fn lemma_widest_is_met<K: Kit<Num = Fixed>>(lines: Seq<LineView<K>>, n: int)
    requires
        0 <= n <= lines.len(),
    ensures
        widest(lines, n).raw == 0 || exists|i: int|
            0 <= i < n && widest(lines, n) == (#[trigger] lines[i]).width(),
    decreases n,
{
    if n > 0 {
        lemma_widest_is_met(lines, n - 1);
        if widest(lines, n) != lines[n - 1].width() && widest(lines, n - 1).raw != 0 {
            let i = choose|i: int|
                0 <= i < n - 1 && widest(lines, n - 1) == (#[trigger] lines[i]).width();
            assert(widest(lines, n) == lines[i].width());
        }
    }
}

/// A flow is as wide as the widest of its lines, and as high as all of them.
pub proof fn law_flow_is_as_wide_as_its_widest_line<K: Kit<Num = Fixed>>(
    lines: Seq<LineView<K>>,
    wrap_width: Option<Fixed>,
)
    requires
        sound_lines(lines),
    ensures
        ({
            let size = layout_of_lines(lines, wrap_width).size;
            &&& size.height.raw == height_sum(lines, lines.len() as int)
            &&& size.width.raw == 0 || exists|i: int|
                0 <= i < lines.len() && size.width == (#[trigger] lines[i]).width()
            &&& forall|i: int|
                0 <= i < lines.len() ==> (#[trigger] lines[i]).width().raw <= size.width.raw
        }),
{
    law_lines_stand_below_each_other(lines, lines.len() as int);
    lemma_widest_is_met(lines, lines.len() as int);
    assert forall|i: int| 0 <= i < lines.len() implies (#[trigger] lines[i]).width().raw
        <= layout_of_lines(lines, wrap_width).size.width.raw by {
        lemma_widest(lines, lines.len() as int, i);
    }
}

/// Text stands in the middle of its box: as far below the top as above the
/// bottom, but for a step.
pub proof fn law_text_stands_in_the_middle(shaped: ShapedLine<Fixed>, height: Fixed)
    requires
        i64::MIN <= height.raw - shaped.ascent.raw <= i64::MAX,
        i64::MIN <= height.raw - shaped.ascent.raw - shaped.descent.raw <= i64::MAX,
        i64::MIN <= height.raw + shaped.ascent.raw - shaped.descent.raw - 1,
        height.raw + shaped.ascent.raw - shaped.descent.raw <= i64::MAX,
    ensures
        ({
            let baseline = centered_baseline(shaped, height).raw;
            let above = baseline - shaped.ascent.raw;
            let below = height.raw - baseline - shaped.descent.raw;
            above <= below <= above + 1
        }),
{
    assert(Fixed::spec_ratio(2, 1).raw == 131072);
    let rest = height.raw - shaped.ascent.raw - shaped.descent.raw;
    assert((rest * 65536) / 131072 == rest / 2) by (nonlinear_arith);
}

/// A line box is as high as asked for or as the text needs it, whichever is
/// more.
pub proof fn law_box_holds_its_text(shaped: ShapedLine<Fixed>, requested: Fixed)
    requires
        i64::MIN <= shaped.ascent.raw + shaped.descent.raw <= i64::MAX,
    ensures
        needed_height(shaped, requested).raw == if requested.raw < shaped.ascent.raw
            + shaped.descent.raw {
            shaped.ascent.raw + shaped.descent.raw
        } else {
            requested.raw as int
        },
{
}

/// An image stands with its middle at the middle of the line, but for a step,
/// as long as the baseline runs through it; past that, it stands on the
/// baseline or hangs from it.
pub proof fn law_image_stands_in_the_middle_of_its_line(
    height: Fixed,
    body_baseline: Fixed,
    line_height: Fixed,
)
    requires
        0 <= height.raw <= 0x1000_0000_0000_0000,
        0 <= line_height.raw <= 0x1000_0000_0000_0000,
        -0x1000_0000_0000_0000 <= body_baseline.raw <= 0x1000_0000_0000_0000,
    ensures
        ({
            let baseline = image_baseline(height, body_baseline, line_height).raw;
            let wanted = height.raw + 2 * body_baseline.raw - line_height.raw;
            &&& 2 <= wanted <= 2 * height.raw - 2 ==> wanted - 1 <= 2 * baseline <= wanted + 1
            &&& wanted <= -2 ==> baseline == 0
            &&& wanted >= 2 * height.raw + 2 ==> baseline == height.raw
        }),
{
    assert(Fixed::spec_ratio(2, 1).raw == 131072);
    let (h, l) = (height.raw as int, line_height.raw as int);
    assert((h * 65536) / 131072 == h / 2) by (nonlinear_arith);
    assert((l * 65536) / 131072 == l / 2) by (nonlinear_arith);
}

} // verus!
