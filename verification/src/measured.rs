//! What the window is asked when a flow is measured, and what its answers
//! make of the flow.
//!
//! Each law takes a window that answers one question in one way, and says what
//! comes of that answer.

use std::ops::Range;
use std::sync::Arc;

use vstd::prelude::*;

use crate::backend::{
    Backend, InlineFlowTypography, MeasuredInlineObject, ShapedLine, WrapView,
};
use crate::content::{flow_len, lemma_offset_ends, lemma_offset_step};
use crate::fit::{lemma_atoms_are_one_line, text_pixels};
use crate::fragment::{
    first_background, is_fragment, is_text_answer, is_text_fragment, lemma_plan_of_first, line_plan,
    marked_fragment, plan_of_first, tallest, text_fragment, text_plan, FragmentView, KindView,
    PlannedFragment, SizeRange, TextAnswer,
};
use crate::geometry::{DefiniteLength, Size};
use crate::image::{is_image_sizes, law_image_is_measured_by_its_own_answer, size_of_image};
use crate::item::ItemView;
use crate::kit::Kit;
use crate::layout::{
    is_answers, is_body, is_drawn_layout, is_intrinsic_width, is_layout, is_line, is_prepared,
    is_sizes, layout_of_lines, placed_line, top_after, widest, width_of_first, FlowAnswers,
    LayoutView,
};
use crate::marks::{clip, clipped, Highlights, InlineHighlight};
use crate::number::{Fixed, Number};
use crate::painted::{code_within, law_code_is_marked_by_its_bytes};
use crate::placement::{
    law_code_box_is_centered, law_image_stands_in_the_middle_of_its_line, law_line_holds_its_body,
};
use crate::segmentation::{grapheme_pieces, word_pieces};
use crate::selection::lemma_line_of;
use crate::spans::{
    element_of, holds, is_element, is_elements, is_span, is_spans, is_styled_span, is_width,
    is_word, is_words, is_wrap_text, law_bytes_are_styled_by_their_highlights, span_is_right,
    span_padding, spans, starts_in_order, styles, TextSpan,
};
use crate::text::{byte_len, chars_in, text_slice};
use crate::wrap::{local_range, reaches};

verus! {

/// Whether the window draws the bytes `range` of `text` as `shaped`: in the
/// style of the flow, at `font_size`, under those of the highlights that are on
/// them.
pub open spec fn shapes<K: Kit, B: Backend<K>>(
    backend: &B,
    style: Arc<K::TextStyle>,
    text: Seq<char>,
    highlights: Seq<(Range<usize>, InlineHighlight<K>)>,
    range: Range<usize>,
    font_size: K::Num,
    shaped: ShapedLine<K::Num>,
) -> bool {
    forall|asked: &str, marks: Highlights<K>, answer: ShapedLine<K::Num>| #[trigger]
        call_ensures(
            B::shape_line,
            (backend, asked, range, &style, font_size, &marks),
            answer,
        ) && asked@ == text && marks@ == clipped(highlights, range.start, range.end) ==> answer
            == shaped
}

/// Whether the window snaps the length of `steps` steps to `snapped`.
pub open spec fn snaps<K: Kit<Num = Fixed>, B: Backend<K>>(
    backend: &B,
    steps: int,
    snapped: Fixed,
) -> bool {
    forall|length: Fixed, answer: Fixed| #[trigger]
        call_ensures(B::pixel_snap, (backend, length), answer) && length.raw == steps ==> answer
            == snapped
}

/// The larger of two counts of steps.
pub open spec fn more(a: int, b: int) -> int {
    if a < b {
        b
    } else {
        a
    }
}

/// A text is as wide as the window shapes it, at its scaled size and under its
/// own highlights; code takes two pixels more at each end. It is as high as the
/// line asks for or the text needs, snapped.
pub proof fn law_text_is_as_large_as_it_is_shaped<K: Kit<Num = Fixed>, B: Backend<K>>(
    backend: &B,
    typography: &InlineFlowTypography<K>,
    line_height: Fixed,
    item_ix: usize,
    text: Seq<char>,
    links: Seq<(Range<usize>, Arc<K::Link>)>,
    highlights: Seq<(Range<usize>, InlineHighlight<K>)>,
    range: Range<usize>,
    scale: Fixed,
    out: FragmentView<K>,
    shaped: ShapedLine<Fixed>,
    height: Fixed,
)
    requires
        is_text_fragment(
            backend,
            typography,
            line_height,
            item_ix,
            text,
            links,
            highlights,
            range,
            scale,
            out,
        ),
        shapes(
            backend,
            typography.text_style,
            text,
            highlights,
            range,
            text_pixels(*typography).spec_times(scale),
            shaped,
        ),
        i64::MIN <= shaped.ascent.raw + shaped.descent.raw <= i64::MAX,
        snaps(
            backend,
            more(line_height.raw as int, shaped.ascent.raw + shaped.descent.raw),
            height,
        ),
        shaped.width.raw + 4 * 65536 <= i64::MAX,
    ensures
        out.size.width.raw == shaped.width.raw + if code_within(
            highlights,
            range.start,
            range.end,
        ) {
            4 * 65536
        } else {
            0
        },
        out.size.height == height,
        out.item_ix == item_ix,
        out.source_range == range,
        out.kind is Text,
        out.kind->font_size == text_pixels(*typography).spec_times(scale),
{
    assert(Fixed::spec_ratio(2, 1).raw == 131072);
    assert(Fixed::spec_ratio(2, 1).spec_times(Fixed::spec_ratio(2, 1)).raw == 262144);
    law_code_is_marked_by_its_bytes(highlights, range.start, range.end);
}

/// Whether the highlight of index `i` is on some byte of `start..end` and sets
/// a background.
pub open spec fn colors<K: Kit>(
    highlights: Seq<(Range<usize>, InlineHighlight<K>)>,
    start: usize,
    end: usize,
    i: int,
) -> bool {
    &&& 0 <= i < highlights.len()
    &&& highlights[i].1.background_color is Some
    &&& start < end
    &&& highlights[i].0.start < highlights[i].0.end
    &&& highlights[i].0.start < end
    &&& start < highlights[i].0.end
}

proof fn lemma_first_background_append<K: Kit>(
    a: Seq<(Range<usize>, InlineHighlight<K>)>,
    last: (Range<usize>, InlineHighlight<K>),
)
    ensures
        first_background(a.push(last)) == match first_background(a) {
            Some(color) => Some(color),
            None => last.1.background_color,
        },
    decreases a.len(),
{
    let all = a.push(last);
    if a.len() > 0 {
        lemma_first_background_append(a.drop_first(), last);
        assert(all.drop_first() =~= a.drop_first().push(last));
        assert(all[0] == a[0]);
    } else {
        reveal_with_fuel(first_background, 2);
        assert(all[0] == last);
        assert(all.drop_first().len() == 0);
    }
}

proof fn lemma_clipped_color<K: Kit>(
    highlights: Seq<(Range<usize>, InlineHighlight<K>)>,
    start: usize,
    end: usize,
)
    ensures
        match first_background(clipped(highlights, start, end)) {
            Some(color) => exists|i: int|
                #[trigger] colors(highlights, start, end, i)
                    && highlights[i].1.background_color == Some(color) && forall|j: int|
                    j < i ==> !#[trigger] colors(highlights, start, end, j),
            None => forall|i: int| !#[trigger] colors(highlights, start, end, i),
        },
    decreases highlights.len(),
{
    if highlights.len() > 0 {
        let before = highlights.drop_last();
        let n = before.len() as int;
        let last = highlights.last();
        let rest = clipped(before, start, end);
        lemma_clipped_color(before, start, end);
        assert forall|j: int| j < n implies #[trigger] colors(highlights, start, end, j) == colors(
            before,
            start,
            end,
            j,
        ) by {
            if 0 <= j {
                assert(before[j] == highlights[j]);
            }
        }
        assert(highlights[n] == last);
        if let Some(range) = clip(last.0, start, end) {
            lemma_first_background_append(rest, (range, last.1));
        }
        match first_background(rest) {
            Some(color) => {
                let i = choose|i: int| #[trigger]
                    colors(before, start, end, i) && before[i].1.background_color == Some(color)
                        && forall|j: int| j < i ==> !#[trigger] colors(before, start, end, j);
                assert(colors(highlights, start, end, i));
                assert(highlights[i] == before[i]);
            },
            None => {
                assert forall|j: int| j < n implies !#[trigger] colors(
                    highlights,
                    start,
                    end,
                    j,
                ) by {
                    assert(!colors(before, start, end, j));
                }
                if colors(highlights, start, end, n) {
                    assert(clip(last.0, start, end) is Some);
                } else {
                    assert forall|i: int| !#[trigger] colors(highlights, start, end, i) by {
                        if i == n {
                        }
                    }
                }
            },
        }
    }
}

/// Text has a box behind it only where it is code and one of its highlights
/// sets a background; the first of them gives the color. The box is as wide as
/// the text with its padding, and reaches an eighth of the font size and half
/// the descent above the tallest capitals and below the baseline.
pub proof fn law_code_has_a_box_behind_it<K: Kit<Num = Fixed>>(
    item_ix: usize,
    text: Seq<char>,
    links: Seq<(Range<usize>, Arc<K::Link>)>,
    highlights: Seq<(Range<usize>, InlineHighlight<K>)>,
    range: Range<usize>,
    font_size: Fixed,
    answer: TextAnswer<Fixed>,
)
    requires
        0 <= answer.shaped.descent.raw <= 0x0100_0000_0000_0000,
        0 <= font_size.raw <= 0x0100_0000_0000_0000,
        forall|i: int|
            #![trigger answer.cap_heights[i]]
            0 <= i < answer.cap_heights.len() ==> 0 <= answer.cap_heights[i].raw
                <= 0x0100_0000_0000_0000,
        ({
            let baseline = marked_fragment(
                item_ix,
                text,
                links,
                clipped(highlights, range.start, range.end),
                range,
                font_size,
                answer,
            ).baseline;
            -0x0100_0000_0000_0000 <= baseline.raw <= 0x0100_0000_0000_0000
        }),
    ensures
        ({
            let out = marked_fragment(
                item_ix,
                text,
                links,
                clipped(highlights, range.start, range.end),
                range,
                font_size,
                answer,
            );
            let behind = out.kind->code_background;
            let (start, end) = (range.start, range.end);
            let room = font_size.raw / 8 + answer.shaped.descent.raw / 2;
            &&& behind is Some <==> code_within(highlights, start, end) && exists|i: int| #[trigger]
                colors(highlights, start, end, i)
            &&& behind matches Some((area, color)) ==> {
                &&& exists|i: int| #[trigger]
                    colors(highlights, start, end, i) && highlights[i].1.background_color == Some(
                        color,
                    ) && forall|j: int| j < i ==> !#[trigger] colors(highlights, start, end, j)
                &&& area.origin.x.raw == 0
                &&& area.size.width == out.size.width
                &&& area.origin.y.raw + area.size.height.raw - out.baseline.raw == room
                &&& exists|cap: int| #[trigger]
                    is_tallest(answer.cap_heights, cap) && out.baseline.raw - cap
                        - area.origin.y.raw == room
            }
        }),
{
    let (start, end) = (range.start, range.end);
    let marks = clipped(highlights, start, end);
    lemma_clipped_color(highlights, start, end);
    law_code_is_marked_by_its_bytes(highlights, start, end);
    let out = marked_fragment(item_ix, text, links, marks, range, font_size, answer);
    lemma_tallest(answer.cap_heights);
    let (font, descent) = (font_size.raw as int, answer.shaped.descent.raw as int);
    assert(Fixed::spec_ratio(1, 8).raw == 8192);
    assert(Fixed::spec_ratio(2, 1).raw == 131072);
    assert((font * 8192) / 65536 == font / 8) by (nonlinear_arith);
    assert((descent * 65536) / 131072 == descent / 2) by (nonlinear_arith);
    let room = font / 8 + descent / 2;
    assert((room * 131072) / 65536 == 2 * room) by (nonlinear_arith);
    assert(is_tallest(answer.cap_heights, tallest(answer.cap_heights).raw as int));
    law_code_box_is_centered(
        answer.cap_heights,
        answer.shaped.descent,
        font_size,
        out.size.width,
        out.baseline,
    );
}

/// Whether `steps` is the largest of the given heights, or nothing where there
/// is none.
pub open spec fn is_tallest(heights: Seq<Fixed>, steps: int) -> bool {
    &&& forall|i: int| #![trigger heights[i]] 0 <= i < heights.len() ==> heights[i].raw <= steps
    &&& steps == 0 || exists|i: int| 0 <= i < heights.len() && (#[trigger] heights[i]).raw == steps
}

proof fn lemma_tallest(heights: Seq<Fixed>)
    requires
        forall|i: int|
            #![trigger heights[i]]
            0 <= i < heights.len() ==> 0 <= heights[i].raw <= 0x0100_0000_0000_0000,
    ensures
        is_tallest(heights, tallest(heights).raw as int),
        0 <= tallest(heights).raw <= 0x0100_0000_0000_0000,
    decreases heights.len(),
{
    if heights.len() > 0 {
        let before = heights.drop_last();
        assert forall|i: int| #![trigger before[i]] 0 <= i < before.len() implies 0 <= before[i].raw
            <= 0x0100_0000_0000_0000 by {
            assert(before[i] == heights[i]);
        }
        lemma_tallest(before);
        let n = heights.len() - 1;
        assert(heights[n] == heights.last());
        assert forall|i: int| #![trigger heights[i]] 0 <= i < heights.len() implies heights[i].raw
            <= tallest(heights).raw by {
            if i < n {
                assert(before[i] == heights[i]);
            }
        }
        if tallest(heights) != heights.last() && tallest(before).raw != 0 {
            let i = choose|i: int|
                0 <= i < before.len() && (#[trigger] before[i]).raw == tallest(before).raw;
            assert(heights[i] == before[i]);
        }
    }
}

/// Every line has room for text in the font of the flow: it is measured by a
/// space in the style and the size of the flow, without highlights.
pub proof fn law_body_is_that_of_a_space<K: Kit<Num = Fixed>, B: Backend<K>>(
    backend: &B,
    typography: &InlineFlowTypography<K>,
    line_height: Fixed,
    height: Fixed,
    baseline: Fixed,
    shaped: ShapedLine<Fixed>,
    snapped: Fixed,
)
    requires
        is_body(backend, typography, line_height, height, baseline),
        shapes::<K, B>(
            backend,
            typography.text_style,
            seq![' '],
            Seq::empty(),
            Range { start: 0, end: 1 },
            text_pixels(*typography),
            shaped,
        ),
        i64::MIN <= shaped.ascent.raw + shaped.descent.raw <= i64::MAX,
        snaps(
            backend,
            more(line_height.raw as int, shaped.ascent.raw + shaped.descent.raw),
            snapped,
        ),
        -0x1000_0000_0000_0000 <= snapped.raw <= 0x1000_0000_0000_0000,
        -0x1000_0000_0000_0000 <= shaped.ascent.raw <= 0x1000_0000_0000_0000,
        -0x1000_0000_0000_0000 <= shaped.descent.raw <= 0x1000_0000_0000_0000,
    ensures
        height == snapped,
        ({
            let above = baseline.raw - shaped.ascent.raw;
            let below = height.raw - baseline.raw - shaped.descent.raw;
            above <= below <= above + 1
        }),
{
    assert(Fixed::spec_ratio(2, 1).raw == 131072);
    let rest = height.raw - shaped.ascent.raw - shaped.descent.raw;
    assert((rest * 65536) / 131072 == rest / 2) by (nonlinear_arith);
}

/// The fragment of a layout that stands at `k`, as it was measured.
proof fn lemma_measured_at<K: Kit, B: Backend<K>>(
    backend: &B,
    typography: &InlineFlowTypography<K>,
    items: Seq<ItemView<K>>,
    image_sizes: Seq<Option<Size<K::Num>>>,
    prepared: Seq<Option<MeasuredInlineObject<K>>>,
    wrap_width: Option<K::Num>,
    out: LayoutView<K>,
    k: int,
) -> (at: (FlowAnswers<K>, int, int))
    requires
        items.len() <= usize::MAX,
        is_layout(backend, typography, items, image_sizes, prepared, wrap_width, out),
        0 <= k < out.fragments.len(),
    ensures
        is_answers(backend, typography, items, image_sizes, prepared, wrap_width, at.0),
        out == layout_of_lines(at.0.lines, wrap_width),
        0 <= at.1 < at.0.lines.len(),
        at.0.lines.len() == at.0.ranges.len(),
        0 <= at.2 < at.0.lines[at.1].fragments.len(),
        at.0.lines[at.1].fragments.len() == line_plan(
            items,
            at.0.sizes,
            at.0.ranges[at.1],
        ).len(),
        out.fragments[k] == placed_line(at.0.lines[at.1], top_after(at.0.lines, at.1))[at.2],
        is_fragment(
            backend,
            typography,
            at.0.line_height,
            at.0.lines[at.1].body_baseline,
            items,
            image_sizes,
            at.0.objects,
            line_plan(items, at.0.sizes, at.0.ranges[at.1])[at.2],
            at.0.lines[at.1].fragments[at.2],
        ),
        match line_plan(items, at.0.sizes, at.0.ranges[at.1])[at.2] {
            PlannedFragment::Text { item_ix, start, end, .. } => item_ix < items.len()
                && items[item_ix as int] is Text && start < end,
            PlannedFragment::Atom { item_ix } => item_ix < items.len() && !(
            items[item_ix as int] is Text),
        },
{
    let answers = choose|answers: FlowAnswers<K>| #[trigger]
        is_answers(
            backend,
            typography,
            items,
            image_sizes,
            prepared,
            wrap_width,
            answers,
        ) && out == layout_of_lines(answers.lines, wrap_width);
    let (n, i) = lemma_line_of(answers.lines, answers.lines.len() as int, k);
    let line = answers.lines[n];
    assert(is_line(
        backend,
        typography,
        answers.line_height,
        items,
        image_sizes,
        answers.objects,
        answers.sizes,
        answers.ranges[n],
        line,
    ));
    lemma_plan_of_first(items, answers.sizes, answers.ranges[n], items.len() as int);
    assert(line.fragments[i] == line.fragments[i]);
    (answers, n, i)
}

/// Whether a planned text lies in a stretch of its size.
spec fn in_a_stretch<N>(sizes: Seq<SizeRange<N>>, planned: PlannedFragment<N>) -> bool {
    planned matches PlannedFragment::Text { start, end, scale, .. } ==> exists|j: int|
        0 <= j < sizes.len() && (#[trigger] sizes[j]).0.start <= start && end <= sizes[j].0.end
            && scale == sizes[j].1
}

proof fn lemma_text_plan_in_stretches<N>(
    item_ix: usize,
    sizes: Seq<SizeRange<N>>,
    range: Range<usize>,
    i: int,
)
    requires
        0 <= i < text_plan(item_ix, sizes, range).len(),
    ensures
        in_a_stretch(sizes, text_plan(item_ix, sizes, range)[i]),
        text_plan(item_ix, sizes, range)[i] matches PlannedFragment::Text { item_ix: ix, .. } && ix
            == item_ix,
    decreases sizes.len(),
{
    let before = sizes.drop_last();
    if i < text_plan(item_ix, before, range).len() {
        lemma_text_plan_in_stretches(item_ix, before, range, i);
        if let PlannedFragment::Text { start, end, scale, .. } = text_plan(
            item_ix,
            sizes,
            range,
        )[i] {
            let j = choose|j: int|
                0 <= j < before.len() && (#[trigger] before[j]).0.start <= start && end
                    <= before[j].0.end && scale == before[j].1;
            assert(sizes[j] == before[j]);
        }
    } else {
        assert(sizes[sizes.len() - 1] == sizes.last());
    }
}

proof fn lemma_plan_in_stretches<K: Kit>(
    items: Seq<ItemView<K>>,
    sizes: Seq<Seq<SizeRange<K::Num>>>,
    line: Range<usize>,
    n: int,
    i: int,
)
    requires
        0 <= n <= items.len() <= usize::MAX,
        0 <= i < plan_of_first(items, sizes, line, n).len(),
    ensures
        plan_of_first(items, sizes, line, n)[i] matches PlannedFragment::Text { item_ix, .. }
            ==> in_a_stretch(sizes[item_ix as int], plan_of_first(items, sizes, line, n)[i]),
    decreases n,
{
    let before = plan_of_first(items, sizes, line, n - 1);
    if i < before.len() {
        lemma_plan_in_stretches(items, sizes, line, n - 1, i);
    } else if items[n - 1] is Text && reaches(items, n - 1, line) {
        lemma_text_plan_in_stretches(
            (n - 1) as usize,
            sizes[n - 1],
            local_range(items, n - 1, line),
            i - before.len(),
        );
    }
}

/// A text of a layout is of one size: it lies in a stretch that the window
/// finds under the highlights of its item, and its font is that of the flow
/// scaled as the stretch is.
pub proof fn law_text_is_of_the_size_of_its_stretch<K: Kit, B: Backend<K>>(
    backend: &B,
    typography: &InlineFlowTypography<K>,
    items: Seq<ItemView<K>>,
    image_sizes: Seq<Option<Size<K::Num>>>,
    prepared: Seq<Option<MeasuredInlineObject<K>>>,
    wrap_width: Option<K::Num>,
    out: LayoutView<K>,
    k: int,
    stretches: Seq<SizeRange<K::Num>>,
)
    requires
        items.len() <= usize::MAX,
        is_layout(backend, typography, items, image_sizes, prepared, wrap_width, out),
        0 <= k < out.fragments.len(),
        out.fragments[k] is Text,
        items[out.fragments[k]->Text_item_ix as int] matches ItemView::Text { text, highlights, .. }
            && forall|marks: Highlights<K>, answer: Vec<SizeRange<K::Num>>| #[trigger]
            call_ensures(
                B::text_size_ranges,
                (backend, byte_len(text) as usize, &marks),
                answer,
            ) && marks@ == highlights ==> answer@ == stretches,
    ensures
        ({
            let range = out.fragments[k]->source_range;
            exists|j: int|
                0 <= j < stretches.len() && (#[trigger] stretches[j]).0.start <= range.start
                    && range.end <= stretches[j].0.end && out.fragments[k]->font_size
                    == text_pixels(*typography).spec_times(stretches[j].1)
        }),
{
    let (answers, n, i) = lemma_measured_at(
        backend,
        typography,
        items,
        image_sizes,
        prepared,
        wrap_width,
        out,
        k,
    );
    let plan = line_plan(items, answers.sizes, answers.ranges[n]);
    lemma_plan_in_stretches(
        items,
        answers.sizes,
        answers.ranges[n],
        items.len() as int,
        i,
    );
    let ix = out.fragments[k]->Text_item_ix as int;
    assert(plan[i] is Text);
    assert(is_sizes(backend, items[ix], answers.sizes[ix]));
    if let PlannedFragment::Text { start, end, scale, .. } = plan[i] {
        let j = choose|j: int|
            0 <= j < stretches.len() && (#[trigger] stretches[j]).0.start <= start && end
                <= stretches[j].0.end && scale == stretches[j].1;
        assert(stretches[j].0.start <= start);
    }
}

/// An object of a layout is the one that the window draws for its item, with
/// its text fitted to the wrap width.
pub proof fn law_object_is_drawn_for_its_item<K: Kit, B: Backend<K>>(
    backend: &B,
    typography: &InlineFlowTypography<K>,
    items: Seq<ItemView<K>>,
    image_sizes: Seq<Option<Size<K::Num>>>,
    wrap_width: Option<K::Num>,
    out: LayoutView<K>,
    k: int,
    drawn: MeasuredInlineObject<K>,
    fitted: MeasuredInlineObject<K>,
)
    requires
        items.len() <= usize::MAX,
        is_drawn_layout(backend, typography, items, image_sizes, wrap_width, out),
        0 <= k < out.fragments.len(),
        out.fragments[k] is Object,
        items[out.fragments[k]->Object_item_ix as int] matches ItemView::Object {
            text,
            id,
            renderer,
            style,
        } && forall|asked: &str, answer: MeasuredInlineObject<K>| #[trigger]
            call_ensures(
                B::draw_object,
                (backend, asked, id, &renderer, &style, &typography.text_style),
                answer,
            ) && asked@ == text ==> answer == drawn,
        forall|answer: MeasuredInlineObject<K>| #[trigger]
            call_ensures(B::fit_text, (backend, &drawn, wrap_width), answer) ==> answer == fitted,
    ensures
        out.fragments[k]->object == fitted,
{
    let prepared = choose|objects: Seq<Option<MeasuredInlineObject<K>>>| #[trigger]
        is_prepared(backend, typography, items, objects) && is_layout(
            backend,
            typography,
            items,
            image_sizes,
            objects,
            wrap_width,
            out,
        );
    let (answers, n, i) = lemma_measured_at(
        backend,
        typography,
        items,
        image_sizes,
        prepared,
        wrap_width,
        out,
        k,
    );
    let ix = out.fragments[k]->Object_item_ix as int;
    let plan = line_plan(items, answers.sizes, answers.ranges[n]);
    assert(plan[i] matches PlannedFragment::Atom { item_ix } && item_ix == ix);
    assert(prepared[ix] is Some);
    assert(prepared[ix] == Some(drawn));
    assert(answers.objects[ix] == Some(fitted));
}

/// An image of a layout is as large as it was measured.
pub proof fn law_image_is_placed_as_large_as_measured<K: Kit, B: Backend<K>>(
    backend: &B,
    typography: &InlineFlowTypography<K>,
    items: Seq<ItemView<K>>,
    image_sizes: Seq<Option<Size<K::Num>>>,
    prepared: Seq<Option<MeasuredInlineObject<K>>>,
    wrap_width: Option<K::Num>,
    out: LayoutView<K>,
    k: int,
)
    requires
        items.len() <= usize::MAX,
        is_layout(backend, typography, items, image_sizes, prepared, wrap_width, out),
        0 <= k < out.fragments.len(),
        out.fragments[k] is Image,
    ensures
        out.fragments[k]->Image_item_ix < items.len(),
        items[out.fragments[k]->Image_item_ix as int] is Image,
        out.fragments[k]->Image_size == image_sizes[out.fragments[k]->Image_item_ix as int]->0,
{
    let (_answers, _n, _i) = lemma_measured_at(
        backend,
        typography,
        items,
        image_sizes,
        prepared,
        wrap_width,
        out,
        k,
    );
}

/// A layout says which wrap width it was made for, and a flow without units is
/// laid out to nothing.
pub proof fn law_layout_keeps_its_wrap_width<K: Kit, B: Backend<K>>(
    backend: &B,
    typography: &InlineFlowTypography<K>,
    items: Seq<ItemView<K>>,
    image_sizes: Seq<Option<Size<K::Num>>>,
    prepared: Seq<Option<MeasuredInlineObject<K>>>,
    wrap_width: Option<K::Num>,
    out: LayoutView<K>,
)
    requires
        is_layout(backend, typography, items, image_sizes, prepared, wrap_width, out),
    ensures
        out.wrap_width == wrap_width,
        flow_len(items) == 0 ==> out.fragments.len() == 0 && out.size.width == K::Num::spec_zero()
            && out.size.height == K::Num::spec_zero(),
{
}

/// Whether the window finds each text as wide as `width` says: in the style of
/// the flow, under `highlight` and at the size that it gives.
pub open spec fn measures<K: Kit, B: Backend<K>>(
    backend: &B,
    style: Arc<K::TextStyle>,
    font_size: K::Num,
    highlight: InlineHighlight<K>,
    width: spec_fn(Seq<char>) -> K::Num,
) -> bool {
    forall|asked: &str, answer: K::Num| #[trigger]
        call_ensures(B::text_width, (backend, asked, &style, font_size, &highlight), answer)
            ==> answer == width(asked@)
}

/// The size of the text of a flow under a highlight.
pub open spec fn pixels_under<K: Kit>(
    typography: InlineFlowTypography<K>,
    highlight: InlineHighlight<K>,
) -> K::Num {
    match highlight.font_size_scale {
        Some(scale) => text_pixels(typography).spec_times(scale),
        None => text_pixels(typography).spec_times(K::Num::spec_ratio(1, 1)),
    }
}

/// How many steps a highlight adds to the width of a text: two pixels at each
/// end of code.
pub open spec fn extra_steps<K: Kit>(highlight: InlineHighlight<K>) -> int {
    if highlight.font_size_scale is Some {
        4int * 65536
    } else {
        0
    }
}

/// A piece of text that is as wide as `width` says, and `extra` steps more, as
/// one element.
pub open spec fn piece_element(
    width: spec_fn(Seq<char>) -> Fixed,
    extra: int,
    piece: Seq<char>,
) -> WrapView<Fixed> {
    WrapView::Element {
        width: Fixed { raw: (width(piece).raw + extra) as i64 },
        len: byte_len(piece),
    }
}

/// Whether widths can be counted with something added to them.
pub open spec fn countable(width: spec_fn(Seq<char>) -> Fixed) -> bool {
    forall|piece: Seq<char>| (#[trigger] width(piece)).raw + 4 * 65536 <= i64::MAX
}

proof fn lemma_element_is_as_wide<K: Kit<Num = Fixed>, B: Backend<K>>(
    backend: &B,
    typography: &InlineFlowTypography<K>,
    highlight: &InlineHighlight<K>,
    width: spec_fn(Seq<char>) -> Fixed,
    piece: Seq<char>,
    answer: Fixed,
)
    requires
        countable(width),
        measures(
            backend,
            typography.text_style,
            pixels_under(*typography, *highlight),
            *highlight,
            width,
        ),
        is_width(backend, typography, highlight, piece, answer),
    ensures
        answer == width(piece),
        element_of(*highlight, piece, answer) == piece_element(
            width,
            extra_steps(*highlight),
            piece,
        ),
{
    assert(Fixed::spec_ratio(2, 1).raw == 131072);
    assert(Fixed::spec_ratio(2, 1).spec_times(Fixed::spec_ratio(2, 1)).raw == 262144);
}

/// A word in another font is one element where it fits on a line by itself, and
/// otherwise one for each of its grapheme clusters.
pub proof fn law_word_is_cut_where_it_does_not_fit<K: Kit<Num = Fixed>, B: Backend<K>>(
    backend: &B,
    typography: &InlineFlowTypography<K>,
    highlight: &InlineHighlight<K>,
    wrap_width: Fixed,
    word: Seq<char>,
    width: spec_fn(Seq<char>) -> Fixed,
    out: Seq<WrapView<Fixed>>,
)
    requires
        countable(width),
        measures(
            backend,
            typography.text_style,
            pixels_under(*typography, *highlight),
            *highlight,
            width,
        ),
        is_word(backend, typography, highlight, wrap_width, word, out),
    ensures
        ({
            let extra = extra_steps(*highlight);
            let parts = if width(word).raw + extra <= wrap_width.raw {
                seq![word]
            } else {
                grapheme_pieces(word)
            };
            &&& out.len() == parts.len()
            &&& forall|i: int|
                #![trigger out[i]]
                0 <= i < out.len() ==> out[i] == piece_element(width, extra, parts[i])
        }),
{
    let extra = extra_steps(*highlight);
    let answer = choose|answer: Fixed| #[trigger]
        is_width(backend, typography, highlight, word, answer) && if answer.spec_plus(
            span_padding(*highlight),
        ).spec_at_most(wrap_width) {
            out == seq![element_of(*highlight, word, answer)]
        } else {
            is_elements(backend, typography, highlight, grapheme_pieces(word), out)
        };
    lemma_element_is_as_wide(backend, typography, highlight, width, word, answer);
    let clusters = grapheme_pieces(word);
    if width(word).raw + extra > wrap_width.raw {
        assert forall|i: int| #![trigger out[i]] 0 <= i < out.len() implies out[i]
            == piece_element(width, extra, clusters[i]) by {
            assert(is_element(backend, typography, highlight, clusters[i], out[i]));
            let each = choose|each: Fixed|
                out[i] == element_of(*highlight, clusters[i], each) && #[trigger] is_width(
                    backend,
                    typography,
                    highlight,
                    clusters[i],
                    each,
                );
            lemma_element_is_as_wide(backend, typography, highlight, width, clusters[i], each);
        }
    }
}

/// A span in another font is one element where it fits on a line by itself.
/// Where it does not, each element of it fits or is a single grapheme cluster
/// of one of its words. Each is as wide as the window finds its text in the
/// font of the span, with the padding of code.
pub proof fn law_span_is_cut_where_it_does_not_fit<K: Kit<Num = Fixed>, B: Backend<K>>(
    backend: &B,
    typography: &InlineFlowTypography<K>,
    highlight: &InlineHighlight<K>,
    wrap_width: Fixed,
    span: Seq<char>,
    width: spec_fn(Seq<char>) -> Fixed,
    out: Seq<WrapView<Fixed>>,
)
    requires
        countable(width),
        measures(
            backend,
            typography.text_style,
            pixels_under(*typography, *highlight),
            *highlight,
            width,
        ),
        is_styled_span(backend, typography, highlight, wrap_width, span, out),
    ensures
        ({
            let extra = extra_steps(*highlight);
            &&& width(span).raw + extra <= wrap_width.raw ==> out == seq![
                piece_element(width, extra, span),
            ]
            &&& width(span).raw + extra > wrap_width.raw ==> forall|i: int|
                #![trigger out[i]]
                0 <= i < out.len() ==> exists|word: int, part: Seq<char>|
                    #![trigger word_pieces(span)[word], width(part)]
                    0 <= word < word_pieces(span).len() && out[i] == piece_element(
                        width,
                        extra,
                        part,
                    ) && {
                        ||| part == word_pieces(span)[word] && width(part).raw + extra
                            <= wrap_width.raw
                        ||| grapheme_pieces(word_pieces(span)[word]).contains(part) && width(
                            word_pieces(span)[word],
                        ).raw + extra > wrap_width.raw
                    }
        }),
{
    let extra = extra_steps(*highlight);
    let words = word_pieces(span);
    let answer = choose|answer: Fixed| #[trigger]
        is_width(backend, typography, highlight, span, answer) && if answer.spec_plus(
            span_padding(*highlight),
        ).spec_at_most(wrap_width) {
            out == seq![element_of(*highlight, span, answer)]
        } else {
            exists|groups: Seq<Seq<WrapView<Fixed>>>|
                out == groups.flatten() && #[trigger] is_words(
                    backend,
                    typography,
                    highlight,
                    wrap_width,
                    words,
                    groups,
                )
        };
    lemma_element_is_as_wide(backend, typography, highlight, width, span, answer);
    if width(span).raw + extra > wrap_width.raw {
        let groups = choose|groups: Seq<Seq<WrapView<Fixed>>>|
            out == groups.flatten() && #[trigger] is_words(
                backend,
                typography,
                highlight,
                wrap_width,
                words,
                groups,
            );
        assert forall|i: int| #![trigger out[i]] 0 <= i < out.len() implies exists|
            word: int,
            part: Seq<char>,
        |
            #![trigger word_pieces(span)[word], width(part)]
            0 <= word < word_pieces(span).len() && out[i] == piece_element(width, extra, part) && {
                ||| part == word_pieces(span)[word] && width(part).raw + extra <= wrap_width.raw
                ||| grapheme_pieces(word_pieces(span)[word]).contains(part) && width(
                    word_pieces(span)[word],
                ).raw + extra > wrap_width.raw
            } by {
            let (word, j) = lemma_group_of(groups, i);
            assert(is_word(
                backend,
                typography,
                highlight,
                wrap_width,
                words[word],
                groups[word],
            ));
            law_word_is_cut_where_it_does_not_fit(
                backend,
                typography,
                highlight,
                wrap_width,
                words[word],
                width,
                groups[word],
            );
            let part = if width(words[word]).raw + extra <= wrap_width.raw {
                words[word]
            } else {
                grapheme_pieces(words[word])[j]
            };
            assert(groups[word][j] == piece_element(width, extra, part));
            assert(word_pieces(span)[word] == words[word]);
            let _wide = width(part);
        }
    }
}

/// Where element `i` of a flattened list comes from.
proof fn lemma_group_of<T>(groups: Seq<Seq<T>>, i: int) -> (at: (int, int))
    requires
        0 <= i < groups.flatten().len(),
    ensures
        0 <= at.0 < groups.len(),
        0 <= at.1 < groups[at.0].len(),
        groups.flatten()[i] == groups[at.0][at.1],
    decreases groups.len(),
{
    if groups.len() == 0 {
        assert(groups.flatten() =~= Seq::empty());
        (0, 0)
    } else {
        let before = groups.drop_last();
        assert(before.push(groups.last()) =~= groups);
        before.lemma_flatten_push(groups.last());
        if i < before.flatten().len() {
            let at = lemma_group_of(before, i);
            assert(before[at.0] == groups[at.0]);
            at
        } else {
            (groups.len() - 1, i - before.flatten().len())
        }
    }
}

/// Code is handed to the line wrapper as wide as it is placed, where the window
/// finds its text as wide when it measures it as when it shapes it.
pub proof fn law_code_wraps_as_wide_as_it_is_placed<K: Kit, B: Backend<K>>(
    backend: &B,
    typography: &InlineFlowTypography<K>,
    line_height: K::Num,
    item_ix: usize,
    text: Seq<char>,
    links: Seq<(Range<usize>, Arc<K::Link>)>,
    highlights: Seq<(Range<usize>, InlineHighlight<K>)>,
    range: Range<usize>,
    highlight: InlineHighlight<K>,
    scale: K::Num,
    piece: Seq<char>,
    width: K::Num,
    element: WrapView<K::Num>,
    out: FragmentView<K>,
)
    requires
        highlight.font_size_scale == Some(scale),
        code_within(highlights, range.start, range.end),
        forall|asked: &str, answer: K::Num| #[trigger]
            call_ensures(
                B::text_width,
                (
                    backend,
                    asked,
                    &typography.text_style,
                    text_pixels(*typography).spec_times(scale),
                    &highlight,
                ),
                answer,
            ) && asked@ == piece ==> answer == width,
        forall|asked: &str, marks: Highlights<K>, answer: ShapedLine<K::Num>| #[trigger]
            call_ensures(
                B::shape_line,
                (
                    backend,
                    asked,
                    range,
                    &typography.text_style,
                    text_pixels(*typography).spec_times(scale),
                    &marks,
                ),
                answer,
            ) && asked@ == text && marks@ == clipped(highlights, range.start, range.end)
                ==> answer.width == width,
        is_element(backend, typography, &highlight, piece, element),
        is_text_fragment(
            backend,
            typography,
            line_height,
            item_ix,
            text,
            links,
            highlights,
            range,
            scale,
            out,
        ),
    ensures
        element matches WrapView::Element { width: handed, .. } && handed == out.size.width,
{
    law_code_is_marked_by_its_bytes(highlights, range.start, range.end);
    assert(text_pixels(*typography) == typography.spec_font_pixels());
    let answer = choose|answer: K::Num|
        element == element_of(highlight, piece, answer) && #[trigger] is_width(
            backend,
            typography,
            &highlight,
            piece,
            answer,
        );
    assert(answer == width);
    let shaped = choose|shaped: TextAnswer<K::Num>| #[trigger]
        is_text_answer(
            backend,
            typography,
            line_height,
            text,
            highlights,
            range,
            scale,
            shaped,
        ) && out == text_fragment(
            *typography,
            item_ix,
            text,
            links,
            highlights,
            range,
            scale,
            shaped,
        );
    assert(shaped.shaped.width == width);
}

proof fn lemma_one_atom<K: Kit<Num = Fixed>, B: Backend<K>>(
    backend: &B,
    typography: &InlineFlowTypography<K>,
    item: ItemView<K>,
    image_sizes: Seq<Option<Size<Fixed>>>,
    prepared: Seq<Option<MeasuredInlineObject<K>>>,
    out: LayoutView<K>,
) -> (answers: FlowAnswers<K>)
    requires
        !(item is Text),
        is_layout(backend, typography, seq![item], image_sizes, prepared, None, out),
    ensures
        is_answers(backend, typography, seq![item], image_sizes, prepared, None, answers),
        answers.lines.len() == 1,
        answers.lines[0].fragments.len() == 1,
        is_fragment(
            backend,
            typography,
            answers.line_height,
            answers.lines[0].body_baseline,
            seq![item],
            image_sizes,
            answers.objects,
            PlannedFragment::Atom { item_ix: 0 },
            answers.lines[0].fragments[0],
        ),
        out.size.width.raw == more(0, answers.lines[0].fragments[0].size.width.raw as int),
{
    let items = seq![item];
    lemma_offset_ends(items);
    lemma_offset_step(items, 0);
    assert(flow_len(items) == 1);
    let answers = choose|answers: FlowAnswers<K>| #[trigger]
        is_answers(
            backend,
            typography,
            items,
            image_sizes,
            prepared,
            None,
            answers,
        ) && out == layout_of_lines(answers.lines, None);
    lemma_atoms_are_one_line(items, answers.ranges);
    let (line, range) = (answers.lines[0], answers.ranges[0]);
    assert(is_line(
        backend,
        typography,
        answers.line_height,
        items,
        image_sizes,
        answers.objects,
        answers.sizes,
        range,
        line,
    ));
    let plan = line_plan(items, answers.sizes, range);
    reveal_with_fuel(plan_of_first, 2);
    assert(reaches(items, 0, range));
    assert(plan =~= seq![PlannedFragment::<Fixed>::Atom { item_ix: 0 }]);
    assert(line.fragments[0] == line.fragments[0]);
    reveal_with_fuel(width_of_first, 2);
    reveal_with_fuel(widest, 2);
    answers
}

/// An image by itself is as wide a flow as it was measured.
pub proof fn law_intrinsic_width_of_an_image<K: Kit<Num = Fixed>, B: Backend<K>>(
    backend: &B,
    typography: &InlineFlowTypography<K>,
    source: Arc<K::Source>,
    width: Option<DefiniteLength<Fixed>>,
    height: Option<DefiniteLength<Fixed>>,
    own: Size<Fixed>,
    total: Fixed,
)
    requires
        is_intrinsic_width(
            backend,
            typography,
            seq![ItemView::Image { source, width, height }],
            total,
        ),
        forall|answer: Size<Fixed>| #[trigger]
            call_ensures(B::image_size, (backend, 0usize, &source, width, height), answer)
                ==> answer == own,
    ensures
        ({
            let shape = if own.width.raw > 0 && own.height.raw > 0 {
                Some(own)
            } else {
                None
            };
            let size = size_of_image(
                width,
                height,
                shape,
                typography.line_height,
                typography.rem_size,
            );
            total.raw == more(0, size.width.raw as int)
        }),
{
    let item = ItemView::<K>::Image { source, width, height };
    let items = seq![item];
    let (image_sizes, layout) = choose|
        image_sizes: Seq<Option<Size<Fixed>>>,
        layout: LayoutView<K>,
    | #[trigger]
        is_image_sizes(backend, typography, items, image_sizes) && #[trigger] is_drawn_layout(
            backend,
            typography,
            items,
            image_sizes,
            None,
            layout,
        ) && total == layout.size.width;
    let prepared = choose|objects: Seq<Option<MeasuredInlineObject<K>>>| #[trigger]
        is_prepared(backend, typography, items, objects) && is_layout(
            backend,
            typography,
            items,
            image_sizes,
            objects,
            None,
            layout,
        );
    let _answers = lemma_one_atom(backend, typography, item, image_sizes, prepared, layout);
    law_image_is_measured_by_its_own_answer(backend, typography, items, image_sizes, 0, own);
}

/// An object by itself is as wide a flow as it is drawn, fitted to no width.
pub proof fn law_intrinsic_width_of_an_object<K: Kit<Num = Fixed>, B: Backend<K>>(
    backend: &B,
    typography: &InlineFlowTypography<K>,
    text: Seq<char>,
    id: usize,
    renderer: Arc<K::Renderer>,
    style: K::Style,
    drawn: MeasuredInlineObject<K>,
    fitted: MeasuredInlineObject<K>,
    total: Fixed,
)
    requires
        is_intrinsic_width(
            backend,
            typography,
            seq![ItemView::Object { text, id, renderer, style }],
            total,
        ),
        forall|asked: &str, answer: MeasuredInlineObject<K>| #[trigger]
            call_ensures(
                B::draw_object,
                (backend, asked, id, &renderer, &style, &typography.text_style),
                answer,
            ) && asked@ == text ==> answer == drawn,
        forall|answer: MeasuredInlineObject<K>| #[trigger]
            call_ensures(B::fit_text, (backend, &drawn, None), answer) ==> answer == fitted,
    ensures
        total.raw == more(0, fitted.metrics.size.width.raw as int),
{
    let item = ItemView::<K>::Object { text, id, renderer, style };
    let items = seq![item];
    let (image_sizes, layout) = choose|
        image_sizes: Seq<Option<Size<Fixed>>>,
        layout: LayoutView<K>,
    | #[trigger]
        is_image_sizes(backend, typography, items, image_sizes) && #[trigger] is_drawn_layout(
            backend,
            typography,
            items,
            image_sizes,
            None,
            layout,
        ) && total == layout.size.width;
    let prepared = choose|objects: Seq<Option<MeasuredInlineObject<K>>>| #[trigger]
        is_prepared(backend, typography, items, objects) && is_layout(
            backend,
            typography,
            items,
            image_sizes,
            objects,
            None,
            layout,
        );
    let answers = lemma_one_atom(backend, typography, item, image_sizes, prepared, layout);
    assert(prepared[0] == Some(drawn));
    assert(answers.objects[0] == Some(fitted));
}

/// Whether the window finds the capitals of a text of `len` bytes as high as
/// `heights` says: in the style of the flow, at `font_size`, under `marks`.
pub open spec fn caps<K: Kit, B: Backend<K>>(
    backend: &B,
    style: Arc<K::TextStyle>,
    len: int,
    font_size: K::Num,
    marks: Seq<(Range<usize>, InlineHighlight<K>)>,
    heights: Seq<K::Num>,
) -> bool {
    forall|asked: usize, given: Highlights<K>, answer: Vec<K::Num>| #[trigger]
        call_ensures(B::cap_heights, (backend, asked, &style, font_size, &given), answer) && asked
            == len && given@ == marks ==> answer@ == heights
}

/// The box behind code is measured by the capitals of its own fonts: those of
/// its bytes, at its scaled size and under its own highlights.
pub proof fn law_code_box_is_measured_by_its_fonts<K: Kit<Num = Fixed>, B: Backend<K>>(
    backend: &B,
    typography: &InlineFlowTypography<K>,
    line_height: Fixed,
    item_ix: usize,
    text: Seq<char>,
    links: Seq<(Range<usize>, Arc<K::Link>)>,
    highlights: Seq<(Range<usize>, InlineHighlight<K>)>,
    range: Range<usize>,
    scale: Fixed,
    out: FragmentView<K>,
    shaped: ShapedLine<Fixed>,
    cap_heights: Seq<Fixed>,
)
    requires
        range.start <= range.end,
        is_text_fragment(
            backend,
            typography,
            line_height,
            item_ix,
            text,
            links,
            highlights,
            range,
            scale,
            out,
        ),
        shapes(
            backend,
            typography.text_style,
            text,
            highlights,
            range,
            text_pixels(*typography).spec_times(scale),
            shaped,
        ),
        caps(
            backend,
            typography.text_style,
            range.end - range.start,
            text_pixels(*typography).spec_times(scale),
            clipped(highlights, range.start, range.end),
            cap_heights,
        ),
        0 <= shaped.descent.raw <= 0x0100_0000_0000_0000,
        0 <= text_pixels(*typography).spec_times(scale).raw <= 0x0100_0000_0000_0000,
        forall|i: int|
            #![trigger cap_heights[i]]
            0 <= i < cap_heights.len() ==> 0 <= cap_heights[i].raw <= 0x0100_0000_0000_0000,
        -0x0100_0000_0000_0000 <= out.baseline.raw <= 0x0100_0000_0000_0000,
    ensures
        ({
            let font_size = text_pixels(*typography).spec_times(scale);
            let room = font_size.raw / 8 + shaped.descent.raw / 2;
            out.kind->code_background matches Some((area, _)) ==> {
                &&& area.size.width == out.size.width
                &&& area.origin.y.raw + area.size.height.raw - out.baseline.raw == room
                &&& exists|cap: int| #[trigger]
                    is_tallest(cap_heights, cap) && out.baseline.raw - cap - area.origin.y.raw
                        == room
            }
        }),
{
    assert(text_pixels(*typography) == typography.spec_font_pixels());
    let font_size = text_pixels(*typography).spec_times(scale);
    let answer = choose|answer: TextAnswer<Fixed>| #[trigger]
        is_text_answer(
            backend,
            typography,
            line_height,
            text,
            highlights,
            range,
            scale,
            answer,
        ) && out == text_fragment(
            *typography,
            item_ix,
            text,
            links,
            highlights,
            range,
            scale,
            answer,
        );
    assert(answer.shaped == shaped);
    if out.kind->code_background is Some {
        assert(answer.cap_heights == cap_heights);
        law_code_has_a_box_behind_it(
            item_ix,
            chars_in(text, range.start as int, range.end as int),
            clipped(links, range.start, range.end),
            highlights,
            range,
            font_size,
            answer,
        );
    }
}

/// A text of a layout is as large as the window shapes its bytes of its item,
/// in lines of the snapped line height of the flow.
pub proof fn law_placed_text_is_as_large_as_it_is_shaped<K: Kit<Num = Fixed>, B: Backend<K>>(
    backend: &B,
    typography: &InlineFlowTypography<K>,
    items: Seq<ItemView<K>>,
    image_sizes: Seq<Option<Size<Fixed>>>,
    prepared: Seq<Option<MeasuredInlineObject<K>>>,
    wrap_width: Option<Fixed>,
    out: LayoutView<K>,
    k: int,
    line_height: Fixed,
    shaped: ShapedLine<Fixed>,
    height: Fixed,
)
    requires
        items.len() <= usize::MAX,
        is_layout(backend, typography, items, image_sizes, prepared, wrap_width, out),
        0 <= k < out.fragments.len(),
        out.fragments[k] is Text,
        snaps(backend, typography.line_height.raw as int, line_height),
        items[out.fragments[k]->Text_item_ix as int] matches ItemView::Text { text, highlights, .. }
            && shapes(
            backend,
            typography.text_style,
            text,
            highlights,
            out.fragments[k]->source_range,
            out.fragments[k]->font_size,
            shaped,
        ),
        i64::MIN <= shaped.ascent.raw + shaped.descent.raw <= i64::MAX,
        snaps(
            backend,
            more(line_height.raw as int, shaped.ascent.raw + shaped.descent.raw),
            height,
        ),
        shaped.width.raw + 4 * 65536 <= i64::MAX,
    ensures
        out.fragments[k]->Text_size.height == height,
        out.fragments[k]->Text_size.width.raw == shaped.width.raw + if code_within(
            items[out.fragments[k]->Text_item_ix as int]->highlights,
            out.fragments[k]->source_range.start,
            out.fragments[k]->source_range.end,
        ) {
            4 * 65536
        } else {
            0
        },
{
    let (answers, n, i) = lemma_measured_at(
        backend,
        typography,
        items,
        image_sizes,
        prepared,
        wrap_width,
        out,
        k,
    );
    assert(answers.line_height == line_height);
    let measured = answers.lines[n].fragments[i];
    let plan = line_plan(items, answers.sizes, answers.ranges[n]);
    if let PlannedFragment::Text { item_ix, start, end, scale } = plan[i] {
        if let ItemView::Text { text, links, highlights } = items[item_ix as int] {
            law_text_is_as_large_as_it_is_shaped(
                backend,
                typography,
                line_height,
                item_ix,
                text,
                links,
                highlights,
                Range { start, end },
                scale,
                measured,
                shaped,
                height,
            );
        }
    }
}

/// Every line of a layout has the room of a space in the font of the flow, in
/// lines of the snapped line height.
pub proof fn law_lines_have_the_room_of_a_space<K: Kit<Num = Fixed>, B: Backend<K>>(
    backend: &B,
    typography: &InlineFlowTypography<K>,
    items: Seq<ItemView<K>>,
    image_sizes: Seq<Option<Size<Fixed>>>,
    prepared: Seq<Option<MeasuredInlineObject<K>>>,
    wrap_width: Option<Fixed>,
    answers: FlowAnswers<K>,
    n: int,
    line_height: Fixed,
    shaped: ShapedLine<Fixed>,
    snapped: Fixed,
)
    requires
        is_answers(
            backend,
            typography,
            items,
            image_sizes,
            prepared,
            wrap_width,
            answers,
        ),
        0 <= n < answers.lines.len(),
        snaps(backend, typography.line_height.raw as int, line_height),
        shapes::<K, B>(
            backend,
            typography.text_style,
            seq![' '],
            Seq::empty(),
            Range { start: 0, end: 1 },
            text_pixels(*typography),
            shaped,
        ),
        i64::MIN <= shaped.ascent.raw + shaped.descent.raw <= i64::MAX,
        snaps(
            backend,
            more(line_height.raw as int, shaped.ascent.raw + shaped.descent.raw),
            snapped,
        ),
        0 <= snapped.raw <= 0x1000_0000_0000_0000,
        0 <= shaped.ascent.raw <= 0x1000_0000_0000_0000,
        0 <= shaped.descent.raw <= 0x1000_0000_0000_0000,
    ensures
        answers.lines[n].body_height == snapped,
        answers.lines[n].ascent().raw >= answers.lines[n].body_baseline.raw,
        ({
            let line = answers.lines[n];
            let above = line.body_baseline.raw - shaped.ascent.raw;
            let below = line.body_height.raw - line.body_baseline.raw - shaped.descent.raw;
            above <= below <= above + 1
        }),
{
    let line = answers.lines[n];
    assert(is_line(
        backend,
        typography,
        answers.line_height,
        items,
        image_sizes,
        answers.objects,
        answers.sizes,
        answers.ranges[n],
        line,
    ));
    law_body_is_that_of_a_space(
        backend,
        typography,
        line_height,
        line.body_height,
        line.body_baseline,
        shaped,
        snapped,
    );
    law_line_holds_its_body(line);
}

/// An object stands on its line by its own metrics: its size and its baseline
/// are those it was drawn with.
pub proof fn law_object_stands_on_its_baseline<K: Kit, B: Backend<K>>(
    backend: &B,
    typography: &InlineFlowTypography<K>,
    line_height: K::Num,
    body_baseline: K::Num,
    items: Seq<ItemView<K>>,
    image_sizes: Seq<Option<Size<K::Num>>>,
    objects: Seq<Option<MeasuredInlineObject<K>>>,
    ix: usize,
    out: FragmentView<K>,
)
    requires
        items[ix as int] is Object,
        is_fragment(
            backend,
            typography,
            line_height,
            body_baseline,
            items,
            image_sizes,
            objects,
            PlannedFragment::Atom { item_ix: ix },
            out,
        ),
    ensures
        out.kind matches KindView::Object(object) && {
            &&& objects[ix as int]->0 == object
            &&& out.item_ix == ix
            &&& out.size == object.metrics.size
            &&& out.baseline == object.metrics.baseline
        },
{
}

/// An image stands on its line with its own middle at the middle of the line,
/// but for a step, as long as the baseline runs through it.
pub proof fn law_image_stands_on_its_line<K: Kit<Num = Fixed>, B: Backend<K>>(
    backend: &B,
    typography: &InlineFlowTypography<K>,
    line_height: Fixed,
    body_baseline: Fixed,
    items: Seq<ItemView<K>>,
    image_sizes: Seq<Option<Size<Fixed>>>,
    objects: Seq<Option<MeasuredInlineObject<K>>>,
    ix: usize,
    out: FragmentView<K>,
)
    requires
        items[ix as int] is Image,
        is_fragment(
            backend,
            typography,
            line_height,
            body_baseline,
            items,
            image_sizes,
            objects,
            PlannedFragment::Atom { item_ix: ix },
            out,
        ),
        0 <= image_sizes[ix as int]->0.height.raw <= 0x1000_0000_0000_0000,
        0 <= line_height.raw <= 0x1000_0000_0000_0000,
        -0x1000_0000_0000_0000 <= body_baseline.raw <= 0x1000_0000_0000_0000,
    ensures
        out.kind is Image,
        out.item_ix == ix,
        out.size == image_sizes[ix as int]->0,
        ({
            let wanted = out.size.height.raw + 2 * body_baseline.raw - line_height.raw;
            &&& 2 <= wanted <= 2 * out.size.height.raw - 2 ==> wanted - 1 <= 2 * out.baseline.raw
                <= wanted + 1
            &&& wanted <= -2 ==> out.baseline.raw == 0
            &&& wanted >= 2 * out.size.height.raw + 2 ==> out.baseline.raw == out.size.height.raw
        }),
{
    law_image_stands_in_the_middle_of_its_line(
        image_sizes[ix as int]->0.height,
        body_baseline,
        line_height,
    );
}

/// Each byte of a text is handed to the line wrapper in its own font: in a span
/// that is measured under the first highlight that sets a family on the byte,
/// or as text in the font of the flow where none does.
pub proof fn law_bytes_are_wrapped_in_their_font<K: Kit, B: Backend<K>>(
    backend: &B,
    typography: &InlineFlowTypography<K>,
    highlights: Seq<(Range<usize>, InlineHighlight<K>)>,
    wrap_width: K::Num,
    text: Seq<char>,
    range: Range<usize>,
    out: Seq<WrapView<K::Num>>,
    at: int,
) -> (found: (Seq<Seq<WrapView<K::Num>>>, int, int, int))
    requires
        highlights.len() <= usize::MAX,
        starts_in_order(highlights),
        range.start <= at < range.end,
        is_wrap_text(backend, typography, highlights, wrap_width, text, range, out),
    ensures
        ({
            let (groups, j, from, to) = found;
            let chars = text_slice(text, from, to);
            &&& out == groups.flatten()
            &&& 0 <= j < groups.len()
            &&& from <= at < to
            &&& (forall|i: int| !#[trigger] styles(highlights, i, at)) ==> groups[j] == seq![
                WrapView::<K::Num>::Text(chars),
            ]
            &&& forall|i: int| #[trigger]
                styles(highlights, i, at) && (forall|h: int|
                    h < i ==> !#[trigger] styles(highlights, h, at)) ==> is_styled_span(
                    backend,
                    typography,
                    &highlights[i].1,
                    wrap_width,
                    chars,
                    groups[j],
                )
        }),
{
    let all = spans(highlights, range);
    let groups = choose|groups: Seq<Seq<WrapView<K::Num>>>|
        out == groups.flatten() && #[trigger] is_spans(
            backend,
            typography,
            highlights,
            wrap_width,
            text,
            all,
            groups,
        );
    law_bytes_are_styled_by_their_highlights(highlights, range, at);
    let j = choose|j: int| #[trigger] holds(all, j, at);
    assert(is_span(backend, typography, highlights, wrap_width, text, all[j], groups[j]));
    assert(span_is_right(highlights, all[j], at));
    let (from, to) = (all[j].start() as int, all[j].end() as int);
    assert forall|i: int| #[trigger]
        styles(highlights, i, at) && (forall|h: int|
            h < i ==> !#[trigger] styles(highlights, h, at)) implies is_styled_span(
        backend,
        typography,
        &highlights[i].1,
        wrap_width,
        text_slice(text, from, to),
        groups[j],
    ) by {
        if let TextSpan::Styled { highlight, .. } = all[j] {
            if i < highlight {
                assert(!styles(highlights, i, at));
            } else if highlight < i {
                assert(!styles(highlights, highlight as int, at));
            }
        }
    }
    (groups, j, from, to)
}

} // verus!
