//! What calls of the library give, one by one and one after the other.

use std::ops::Range;
use std::rc::Rc;
use std::sync::Arc;

use vstd::prelude::*;

use crate::backend::{
    wrap_views, Backend, InlineFlowTypography, MeasuredInlineObject, WhiteSpace, WrapFragment,
};
use crate::content::flow_len;
use crate::element::{
    element_views, elements_of_first, prepaint, selections_to_clear, PrepaintElement,
};
use crate::fit::{atoms_only, law_atoms_take_the_width_they_wrap_with, width_of_elements};
use crate::fragment::SizeRange;
use crate::frame::{
    law_found_at_its_width, law_measured_width_is_found, measure_flow, request_layout, settled,
    wrap_width_of, AvailableSpace, InlineFlowFrameState,
};
use crate::geometry::{AbsoluteLength, Bounds, DefiniteLength, Size};
use crate::image::{
    image_size, law_given_height_keeps_the_shape, law_given_width_keeps_the_shape,
    law_image_in_a_line_keeps_the_shape,
};
use crate::item::{measure_items, measured_views, views, InlineFlowItem, ItemView, MeasureItem};
use crate::kit::Kit;
use crate::layout::{
    intrinsic_width, is_line, layout_measured_flow, line_views, place_lines, InlineFlowLayout,
    LineView, MeasuredLine,
};
use crate::marks::{marks_at, InlineHighlight};
use crate::measured::{
    law_intrinsic_width_of_an_image, law_layout_keeps_its_wrap_width, more,
};
use crate::number::{same_option, Fixed, Same};
use crate::painted::{
    code_within, law_painted_text_keeps_its_marks, law_texts_lose_their_selection, painted_as,
};
use crate::placement::{
    height_sum, law_lines_stand_below_each_other, origin_of, size_of, sound_lines,
};
use crate::reuse::{law_changed_marks_start_over, law_same_request_keeps_the_layouts};
use crate::selection::{
    bottom_of, law_selection_covers_its_line, law_selections_of_two_lines_do_not_overlap,
    lemma_line_of, selection_of,
};
use crate::wrap::{
    cut_line, in_order, law_cut_covers_line, law_line_is_cut_at_its_breaks, line_wrap_fragments,
};

verus! {

/// The size of an image of which the width alone is given has that width, and
/// its sides are in proportion to its own, up to rounding, however high the
/// line is.
pub proof fn law_image_size_keeps_the_shape_to_its_width(
    given: DefiniteLength<Fixed>,
    own: Size<Fixed>,
    line_height: Fixed,
    rem_size: Fixed,
    size: Size<Fixed>,
)
    requires
        call_ensures(
            image_size::<Fixed>,
            (Some(given), None, Some(own), line_height, rem_size),
            size,
        ),
        size.width.raw >= 0,
        own.width.raw > 0,
        own.height.raw > 0,
        own.height.raw * 65536 <= i64::MAX * own.width.raw,
        size.width.raw * own.height.raw <= i64::MAX * own.width.raw,
    ensures
        size.width == given.spec_to_pixels(AbsoluteLength::Pixels(line_height), rem_size),
        size.height.raw * own.width.raw <= size.width.raw * own.height.raw,
        size.width.raw * own.height.raw * 65536 <= ((size.height.raw + 1) * 65536
            + size.width.raw) * own.width.raw,
{
    law_given_width_keeps_the_shape(given, own, line_height, rem_size);
}

/// The size of an image of which the height alone is given has that height, and
/// its sides are in proportion to its own, up to rounding, however high the
/// line is.
pub proof fn law_image_size_keeps_the_shape_to_its_height(
    given: DefiniteLength<Fixed>,
    own: Size<Fixed>,
    line_height: Fixed,
    rem_size: Fixed,
    size: Size<Fixed>,
)
    requires
        call_ensures(
            image_size::<Fixed>,
            (None, Some(given), Some(own), line_height, rem_size),
            size,
        ),
        size.height.raw >= 0,
        own.width.raw > 0,
        own.height.raw > 0,
        own.width.raw * 65536 <= i64::MAX * own.height.raw,
        size.height.raw * own.width.raw <= i64::MAX * own.height.raw,
    ensures
        size.height == given.spec_to_pixels(AbsoluteLength::Pixels(line_height), rem_size),
        size.width.raw * own.height.raw <= size.height.raw * own.width.raw,
        size.height.raw * own.width.raw * 65536 <= ((size.width.raw + 1) * 65536
            + size.height.raw) * own.height.raw,
{
    law_given_height_keeps_the_shape(given, own, line_height, rem_size);
}

/// The size of an image of which no side is given is three quarters of the line
/// high, and its sides are in proportion to its own, up to rounding.
pub proof fn law_image_size_follows_the_line(
    own: Size<Fixed>,
    line_height: Fixed,
    rem_size: Fixed,
    size: Size<Fixed>,
)
    requires
        call_ensures(image_size::<Fixed>, (None, None, Some(own), line_height, rem_size), size),
        own.width.raw > 0,
        own.height.raw > 0,
        4 * 65536 <= 3 * line_height.raw,
        3 * line_height.raw <= i64::MAX,
        own.width.raw * 65536 <= i64::MAX * own.height.raw,
        line_height.raw * own.width.raw <= i64::MAX * own.height.raw,
    ensures
        4 * size.height.raw <= 3 * line_height.raw < 4 * size.height.raw + 4,
        size.height.raw * own.width.raw * 65536 <= ((size.width.raw + 1) * 65536
            + size.height.raw) * own.height.raw,
        size.width.raw > 65536 ==> size.width.raw * own.height.raw <= size.height.raw
            * own.width.raw,
{
    law_image_in_a_line_keeps_the_shape(own, line_height, rem_size);
}

/// Highlights that compare as the same one set the same style, background,
/// family and size, each compared by itself, and no others do.
pub proof fn law_highlights_compare_by_all_they_set<K: Kit>(
    a: &InlineHighlight<K>,
    b: &InlineHighlight<K>,
    same: bool,
)
    requires
        call_ensures(InlineHighlight::<K>::is_same, (a, b), same),
    ensures
        same <==> {
            &&& a.style.same(b.style)
            &&& match (a.background_color, b.background_color) {
                (Some(x), Some(y)) => x.same(y),
                (x, y) => x is None && y is None,
            }
            &&& match (a.font_family, b.font_family) {
                (Some(x), Some(y)) => (*x).same(*y),
                (x, y) => x is None && y is None,
            }
            &&& match (a.font_size_scale, b.font_size_scale) {
                (Some(x), Some(y)) => x.same(y),
                (x, y) => x is None && y is None,
            }
        },
{
}

/// Lines are cut at their breaks and nowhere else, and nothing of them is lost.
pub proof fn law_cutting_a_line(
    line: &Range<usize>,
    breaks: &[usize],
    cut: Vec<Range<usize>>,
    i: int,
)
    requires
        call_ensures(cut_line, (line, breaks), cut),
        in_order(breaks@),
        line.start <= line.end,
        0 <= i < cut@.len(),
    ensures
        cut@[0].start == line.start,
        cut@.last().end == line.end,
        i > 0 ==> cut@[i - 1].end == cut@[i].start,
        cut@[i].start < cut@[i].end || line.start == line.end,
        cut@[i].start == line.start || breaks@.contains((cut@[i].start - line.start) as usize),
        cut@[i].end == line.end || breaks@.contains((cut@[i].end - line.start) as usize),
        forall|j: int|
            0 <= j < breaks@.len() ==> !(cut@[i].start - line.start < #[trigger] breaks@[j]
                < cut@[i].end - line.start),
{
    law_cut_covers_line(*line, breaks@);
    law_line_is_cut_at_its_breaks(*line, breaks@, i);
}

/// Painting a flow that was laid out keeps the marks of its texts: every byte
/// that is painted has the links and the highlights that it has in its item,
/// the backgrounds of code taken out. A text gets the state of its number, the
/// one it had before where there was one.
pub proof fn law_painting_keeps_marks_and_states<K: Kit, B: Backend<K>>(
    backend: &B,
    typography: &InlineFlowTypography<K>,
    items: &[InlineFlowItem<K>],
    measured: &[MeasureItem<K>],
    image_sizes: &[Option<Size<K::Num>>],
    prepared: &[Option<MeasuredInlineObject<K>>],
    wrap_width: Option<K::Num>,
    layout: InlineFlowLayout<K>,
    bounds: Bounds<K::Num>,
    frame_state: &mut InlineFlowFrameState<K>,
    painted: Vec<PrepaintElement<K>>,
    e: int,
    i: int,
)
    requires
        items@.len() <= usize::MAX,
        exists|made: Vec<MeasureItem<K>>| #[trigger]
            call_ensures(measure_items::<K>, (items,), made) && made@ == measured@,
        call_ensures(
            layout_measured_flow::<K, B>,
            (measured, image_sizes, prepared, typography, wrap_width, backend),
            layout,
        ),
        call_ensures(prepaint::<K>, (items, &layout, bounds, frame_state), painted),
        0 <= e < painted@.len(),
    ensures
        painted@[e] matches PrepaintElement::Text {
            item_ix,
            state_ix,
            state,
            source_range,
            links,
            highlights,
            ..
        } ==> {
            let item = items@[item_ix as int];
            let at = source_range.start + i;
            &&& item_ix < items@.len() && item is Text && source_range.start < source_range.end
            &&& 0 <= i < source_range.end - source_range.start ==> {
                &&& marks_at(links@, i) == marks_at(item->links@, at)
                &&& painted_as(
                    marks_at(item->highlights@, at),
                    marks_at(highlights@, i),
                    code_within(item->highlights@, source_range.start, source_range.end),
                )
            }
            &&& state_ix < final(frame_state).fragment_states@.len()
            &&& state == final(frame_state).fragment_states@[state_ix as int]
            &&& state_ix < old(frame_state).fragment_states@.len() ==> state == old(
                frame_state,
            ).fragment_states@[state_ix as int]
        },
{
    let elements = elements_of_first(
        items@,
        bounds,
        layout@.fragments,
        layout@.fragments.len() as int,
    );
    assert(element_views(painted@)[e] == painted@[e]@);
    law_painted_text_keeps_its_marks(
        backend,
        typography,
        items@,
        image_sizes@,
        prepared@,
        wrap_width,
        layout@,
        bounds,
        e,
        i,
    );
    assert(elements[e] == painted@[e]@);
}

/// Painting a flow loses the selections of its texts, unless they are to be
/// preserved.
pub proof fn law_selections_are_cleared<K: Kit>(
    items: &[InlineFlowItem<K>],
    preserve_selection: bool,
    cleared: Vec<usize>,
    ix: int,
)
    requires
        call_ensures(selections_to_clear::<K>, (items, preserve_selection), cleared),
        0 <= ix < items@.len() <= usize::MAX,
    ensures
        cleared@.contains(ix as usize) <==> !preserve_selection && items@[ix] is Text,
{
    law_texts_lose_their_selection(items@, items@.len() as int);
}

/// Placed lines select line by line: a selection starts with its fragment,
/// which it holds, reaches from the top of its line to its bottom, and does not
/// overlap one of another line.
pub proof fn law_placed_lines_select_line_by_line<K: Kit<Num = Fixed>>(
    lines: Vec<MeasuredLine<K>>,
    wrap_width: Option<Fixed>,
    layout: InlineFlowLayout<K>,
    k: int,
    l: int,
)
    requires
        call_ensures(place_lines::<K>, (lines, wrap_width), layout),
        sound_lines(line_views(lines@)),
        0 <= k < layout.fragments@.len(),
        0 <= l < layout.fragments@.len(),
    ensures
        selection_of(layout.fragments@[k]@) matches Some(area) ==> {
            let fragment = layout.fragments@[k]@;
            &&& area.origin.x == origin_of(fragment).x
            &&& area.size.width == size_of(fragment).width
            &&& 0 <= area.origin.y.raw <= origin_of(fragment).y.raw
            &&& origin_of(fragment).y.raw + size_of(fragment).height.raw <= bottom_of(area)
            &&& exists|n: int|
                0 <= n < lines@.len() && area.origin.y.raw == #[trigger] height_sum(
                    line_views(lines@),
                    n,
                ) && bottom_of(area) == height_sum(line_views(lines@), n + 1)
        },
        k < l ==> ((selection_of(layout.fragments@[k]@), selection_of(layout.fragments@[l]@))
            matches (Some(a), Some(b)) ==> {
            ||| a.origin.y == b.origin.y && a.size.height == b.size.height
            ||| bottom_of(a) <= b.origin.y.raw
        }),
{
    let all = line_views(lines@);
    assert(layout@.fragments[k] == layout.fragments@[k]@);
    assert(layout@.fragments[l] == layout.fragments@[l]@);
    let (n, i) = lemma_line_of(all, all.len() as int, k);
    law_selection_covers_its_line(all, n, i);
    law_lines_stand_below_each_other(all, n);
    assert(height_sum(all, n) >= 0);
    if k < l {
        law_selections_of_two_lines_do_not_overlap(all, wrap_width, k, l);
    }
}

/// An image by itself makes a flow as wide as the image.
pub proof fn law_image_makes_its_flow_as_wide<K: Kit<Num = Fixed>, B: Backend<K>>(
    backend: &B,
    typography: &InlineFlowTypography<K>,
    items: &[InlineFlowItem<K>],
    own: Size<Fixed>,
    size: Size<Fixed>,
    total: Fixed,
)
    requires
        call_ensures(intrinsic_width::<K, B>, (items, typography, backend), total),
        items@.len() == 1,
        items@[0] matches InlineFlowItem::Image { source, width, height, .. } && (forall|
            answer: Size<Fixed>,
        | #[trigger]
            call_ensures(B::image_size, (backend, 0usize, &source, width, height), answer)
                ==> answer == own) && call_ensures(
            image_size::<Fixed>,
            (width, height, Some(own), typography.line_height, typography.rem_size),
            size,
        ),
        own.width.raw > 0,
        own.height.raw > 0,
    ensures
        total.raw == more(0, size.width.raw as int),
{
    if let InlineFlowItem::Image { source, width, height, .. } = items@[0] {
        assert(measured_views(items@) =~= seq![
            ItemView::Image { source, width, height },
        ]);
        law_intrinsic_width_of_an_image(backend, typography, source, width, height, own, total);
    }
}

/// Measuring a flow twice in a frame lays it out once: the second call gives
/// the layout of the first and changes nothing.
pub proof fn law_measuring_twice_lays_out_once<K: Kit, B: Backend<K>>(
    backend: &B,
    objects: &[Option<MeasuredInlineObject<K>>],
    typography: &InlineFlowTypography<K>,
    known_width: Option<K::Num>,
    available_width: AvailableSpace<K::Num>,
    frame_state: &mut InlineFlowFrameState<K>,
    layout: Rc<InlineFlowLayout<K>>,
    next_state: &mut InlineFlowFrameState<K>,
    next: Rc<InlineFlowLayout<K>>,
)
    requires
        settled::<K::Num>(),
        call_ensures(
            measure_flow::<K, B>,
            (frame_state, objects, typography, known_width, available_width, backend),
            layout,
        ),
        *old(next_state) == *final(frame_state),
        call_ensures(
            measure_flow::<K, B>,
            (next_state, objects, typography, known_width, available_width, backend),
            next,
        ),
    ensures
        next == layout,
        *final(next_state) == *old(next_state),
{
    let wrap_width = wrap_width_of(
        typography.white_space,
        known_width,
        available_width,
    );
    if old(frame_state).found(wrap_width) is None {
        law_layout_keeps_its_wrap_width(
            backend,
            typography,
            old(frame_state).key->0@.items,
            old(frame_state).key->0@.image_sizes,
            objects@,
            wrap_width,
            layout@,
        );
        assert(same_option(wrap_width, wrap_width));
        law_measured_width_is_found(old(frame_state).layouts@, layout);
    }
}

/// Whether the window gives one answer about each image.
pub open spec fn images_answer_once<K: Kit, B: Backend<K>>(backend: &B) -> bool {
    forall|
        ix: usize,
        source: Arc<K::Source>,
        width: Option<DefiniteLength<K::Num>>,
        height: Option<DefiniteLength<K::Num>>,
        a: Size<K::Num>,
        b: Size<K::Num>,
    |
        #![trigger
            call_ensures(B::image_size, (backend, ix, &source, width, height), a),
            call_ensures(B::image_size, (backend, ix, &source, width, height), b)]
        call_ensures(B::image_size, (backend, ix, &source, width, height), a) && call_ensures(
            B::image_size,
            (backend, ix, &source, width, height),
            b,
        ) ==> a == b
}

/// Requesting an unchanged flow without objects again keeps all that was laid
/// out for it, where the window answers alike about its images: the layouts,
/// and the states of its texts.
pub proof fn law_unchanged_request_keeps_the_layouts<K: Kit, B: Backend<K>>(
    backend: &B,
    typography: &InlineFlowTypography<K>,
    items: &[InlineFlowItem<K>],
    frame_state: &mut InlineFlowFrameState<K>,
    objects: Vec<Option<MeasuredInlineObject<K>>>,
    next_state: &mut InlineFlowFrameState<K>,
    next_objects: Vec<Option<MeasuredInlineObject<K>>>,
)
    requires
        settled::<K::Num>(),
        settled::<K::Style>(),
        settled::<K::Color>(),
        settled::<K::Family>(),
        settled::<K::Link>(),
        settled::<K::TextStyle>(),
        images_answer_once::<K, B>(backend),
        forall|i: int| 0 <= i < items@.len() ==> !(#[trigger] items@[i] is Object),
        call_ensures(
            request_layout::<K, B>,
            (items, typography, frame_state, backend),
            objects,
        ),
        old(next_state).key == final(frame_state).key,
        call_ensures(
            request_layout::<K, B>,
            (items, typography, next_state, backend),
            next_objects,
        ),
    ensures
        final(next_state).layouts@ == old(next_state).layouts@,
        final(next_state).fragment_states == old(next_state).fragment_states,
{
    let current = final(frame_state).key->0;
    let key = final(next_state).key->0;
    law_same_request_keeps_the_layouts(
        backend,
        backend,
        *typography,
        items@,
        current,
        key@,
        old(next_state).layouts@,
    );
}

/// Requesting a flow in which a mark of a text changed starts over: nothing
/// that was laid out before is found, at any width.
pub proof fn law_changed_request_starts_over<K: Kit, B: Backend<K>>(
    backend: &B,
    typography: &InlineFlowTypography<K>,
    items: &[InlineFlowItem<K>],
    other_items: &[InlineFlowItem<K>],
    frame_state: &mut InlineFlowFrameState<K>,
    objects: Vec<Option<MeasuredInlineObject<K>>>,
    next_state: &mut InlineFlowFrameState<K>,
    next_objects: Vec<Option<MeasuredInlineObject<K>>>,
    wrap_width: Option<K::Num>,
    i: int,
    j: int,
)
    requires
        call_ensures(
            request_layout::<K, B>,
            (items, typography, frame_state, backend),
            objects,
        ),
        old(next_state).key == final(frame_state).key,
        call_ensures(
            request_layout::<K, B>,
            (other_items, typography, next_state, backend),
            next_objects,
        ),
        0 <= i < items@.len(),
        i < other_items@.len(),
        items@[i] is Text,
        other_items@[i] is Text,
        ({
            let (x, y) = (items@[i]->highlights@, other_items@[i]->highlights@);
            ||| x.len() != y.len()
            ||| items@[i]->links@.len() != other_items@[i]->links@.len()
            ||| 0 <= j < x.len() && {
                ||| x[j].0 != y[j].0
                ||| !x[j].1.style.same(y[j].1.style)
                ||| (x[j].1.background_color is Some) != (y[j].1.background_color is Some)
                ||| x[j].1.background_color is Some && !x[j].1.background_color->0.same(
                    y[j].1.background_color->0,
                )
                ||| (x[j].1.font_family is Some) != (y[j].1.font_family is Some)
                ||| x[j].1.font_family is Some && !(*x[j].1.font_family->0).same(
                    *y[j].1.font_family->0,
                )
                ||| (x[j].1.font_size_scale is Some) != (y[j].1.font_size_scale is Some)
                ||| x[j].1.font_size_scale is Some && !x[j].1.font_size_scale->0.same(
                    y[j].1.font_size_scale->0,
                )
            }
        }),
    ensures
        final(next_state).found(wrap_width) is None,
        final(next_state).fragment_states == old(next_state).fragment_states,
{
    let current = final(frame_state).key->0;
    let key = final(next_state).key->0;
    assert(measured_views(items@)[i] == items@[i].measured());
    assert(measured_views(other_items@)[i] == other_items@[i].measured());
    law_changed_marks_start_over(
        current,
        old(next_state).layouts@,
        key@,
        wrap_width,
        i,
        j,
    );
}

/// A line of images and objects is handed to the line wrapper as wide as it is
/// laid out: for each stretch of it, the widths of its elements add up to the
/// width of that stretch as a line.
pub proof fn law_atoms_are_handed_over_as_wide_as_laid_out<'a, K: Kit, B: Backend<K>>(
    backend: &B,
    typography: &InlineFlowTypography<K>,
    items: &'a [MeasureItem<K>],
    image_sizes: &[Option<Size<K::Num>>],
    objects: &[Option<MeasuredInlineObject<K>>],
    wrap_width: K::Num,
    line: &Range<usize>,
    handed: Vec<WrapFragment<'a, K::Num>>,
    line_height: K::Num,
    sizes: Seq<Seq<SizeRange<K::Num>>>,
    piece: Range<usize>,
    laid: LineView<K>,
)
    requires
        items@.len() <= usize::MAX,
        flow_len(views(items@)) <= usize::MAX,
        line.start <= piece.start <= piece.end <= line.end <= flow_len(views(items@)),
        atoms_only(views(items@), *line),
        call_ensures(
            line_wrap_fragments::<K, B>,
            (items, image_sizes, objects, typography, wrap_width, line, backend),
            handed,
        ),
        is_line(
            backend,
            typography,
            line_height,
            views(items@),
            image_sizes@,
            objects@,
            sizes,
            piece,
            laid,
        ),
    ensures
        handed@.len() == line.end - line.start,
        laid.width() == width_of_elements(
            wrap_views(handed@).subrange(piece.start - line.start, piece.end - line.start),
        ),
{
    law_atoms_take_the_width_they_wrap_with(
        backend,
        typography,
        line_height,
        views(items@),
        image_sizes@,
        objects@,
        sizes,
        wrap_width,
        *line,
        wrap_views(handed@),
        piece,
        laid,
    );
}

/// The layout that a flow is measured to is one for the width that the flow
/// wraps at, whether it was kept or made.
pub proof fn law_measured_layout_is_of_its_width<K: Kit, B: Backend<K>>(
    backend: &B,
    objects: &[Option<MeasuredInlineObject<K>>],
    typography: &InlineFlowTypography<K>,
    known_width: Option<K::Num>,
    available_width: AvailableSpace<K::Num>,
    frame_state: &mut InlineFlowFrameState<K>,
    layout: Rc<InlineFlowLayout<K>>,
)
    requires
        settled::<K::Num>(),
        call_ensures(
            measure_flow::<K, B>,
            (frame_state, objects, typography, known_width, available_width, backend),
            layout,
        ),
    ensures
        typography.white_space == WhiteSpace::Nowrap ==> layout.wrap_width is None,
        typography.white_space == WhiteSpace::Normal ==> match (known_width, available_width) {
            (Some(width), _) => layout.wrap_width matches Some(own) && own.same(width),
            (None, AvailableSpace::Definite(width)) => layout.wrap_width matches Some(own)
                && own.same(width),
            _ => layout.wrap_width is None,
        },
        final(frame_state).layouts@.contains(layout),
{
    let wrap_width = wrap_width_of(typography.white_space, known_width, available_width);
    let kept = old(frame_state).layouts@;
    law_found_at_its_width(kept, wrap_width);
    if old(frame_state).found(wrap_width) is None {
        law_layout_keeps_its_wrap_width(
            backend,
            typography,
            old(frame_state).key->0@.items,
            old(frame_state).key->0@.image_sizes,
            objects@,
            wrap_width,
            layout@,
        );
        let after = final(frame_state).layouts@;
        assert(after[after.len() - 1] == layout);
    }
}

/// A layout that is kept is found at its width, until more are kept than a flow
/// keeps.
pub proof fn law_kept_layout_is_found<K: Kit>(
    frame_state: &mut InlineFlowFrameState<K>,
    layout: Rc<InlineFlowLayout<K>>,
    next_state: &InlineFlowFrameState<K>,
    found: Option<Rc<InlineFlowLayout<K>>>,
)
    requires
        settled::<K::Num>(),
        old(frame_state).found(layout.wrap_width) is None,
        call_ensures(InlineFlowFrameState::<K>::push_layout, (frame_state, layout), ()),
        *next_state == *final(frame_state),
        call_ensures(
            InlineFlowFrameState::<K>::layout_at,
            (next_state, layout.wrap_width),
            found,
        ),
    ensures
        found == Some(layout),
{
    assert(same_option(layout.wrap_width, layout.wrap_width));
    law_measured_width_is_found(old(frame_state).layouts@, layout);
}

/// A text asks for its state twice and gets the same one; asking for another
/// one changes no state that is there.
pub proof fn law_states_stay<K: Kit>(
    frame_state: &mut InlineFlowFrameState<K>,
    ix: usize,
    state: Arc<K::TextState>,
    next_state: &mut InlineFlowFrameState<K>,
    other_ix: usize,
    other: Arc<K::TextState>,
)
    requires
        ix < usize::MAX,
        other_ix < usize::MAX,
        call_ensures(InlineFlowFrameState::<K>::fragment_state, (frame_state, ix), state),
        *old(next_state) == *final(frame_state),
        call_ensures(InlineFlowFrameState::<K>::fragment_state, (next_state, other_ix), other),
    ensures
        other_ix == ix ==> other == state,
        ix < final(next_state).fragment_states@.len(),
        final(next_state).fragment_states@[ix as int] == state,
        other_ix < final(next_state).fragment_states@.len(),
        final(next_state).fragment_states@[other_ix as int] == other,
        ix < old(frame_state).fragment_states@.len() ==> state == old(
            frame_state,
        ).fragment_states@[ix as int],
        final(next_state).layouts == old(frame_state).layouts,
{
    assert(final(frame_state).fragment_states@[ix as int] == state);
    assert(final(next_state).fragment_states@[ix as int] == old(
        next_state,
    ).fragment_states@[ix as int]);
}

/// A new flow keeps nothing: no layout at any width, no state and no key.
pub proof fn law_new_flow_keeps_nothing<K: Kit>(
    frame_state: InlineFlowFrameState<K>,
    wrap_width: Option<K::Num>,
)
    requires
        call_ensures(InlineFlowFrameState::<K>::new, (), frame_state),
    ensures
        frame_state.found(wrap_width) is None,
        frame_state.fragment_states@.len() == 0,
        frame_state.key is None,
        frame_state.well_formed(),
{
}

} // verus!
