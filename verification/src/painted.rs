//! What is painted of a flow, held against the flow.

use std::ops::Range;

use vstd::prelude::*;

use crate::backend::{Backend, InlineFlowTypography, MeasuredInlineObject};
use crate::coverage::{law_fragments_show_items, shows_item};
use crate::element::{
    element_of, elements_of_first, shown_item, shows, text_items, texts_of_first, ElementView,
};
use crate::fragment::{
    is_code, is_fragment, lemma_plan_of_first, line_plan, without_backgrounds,
};
use crate::geometry::{Bounds, Point, Size};
use crate::item::{measured_views, InlineFlowItem, ItemView};
use crate::kit::Kit;
use crate::layout::{
    is_answers, is_layout, is_line, layout_of_lines, placed_line, top_after, FlowAnswers,
    LayoutView, PositionedView,
};
use crate::marks::{clip, clipped, law_clipping_keeps_marks, marks_at, InlineHighlight};
use crate::number::{Fixed, Number};
use crate::placement::{origin_of, size_of};
use crate::selection::{lemma_line_of, selection_of};

verus! {

/// Whether a highlight marks code on some byte of `start..end`: one that
/// changes the size of the text.
pub open spec fn code_within<K: Kit>(
    highlights: Seq<(Range<usize>, InlineHighlight<K>)>,
    start: usize,
    end: usize,
) -> bool {
    exists|i: int, at: int|
        #![trigger highlights[i], covers(highlights[i].0, at)]
        0 <= i < highlights.len() && highlights[i].1.font_size_scale is Some && covers(
            highlights[i].0,
            at,
        ) && start <= at < end
}

/// Whether a range holds the byte `at`.
pub open spec fn covers(range: Range<usize>, at: int) -> bool {
    range.start <= at < range.end
}

/// Whether `shown` is how `own` highlights are painted: alike in all but the
/// background, which is painted behind code instead of by its text.
pub open spec fn painted_as<K: Kit>(
    own: Seq<InlineHighlight<K>>,
    shown: Seq<InlineHighlight<K>>,
    code: bool,
) -> bool {
    &&& shown.len() == own.len()
    &&& forall|j: int|
        #![trigger shown[j]]
        #![trigger own[j]]
        0 <= j < own.len() ==> {
            &&& shown[j].style == own[j].style
            &&& shown[j].font_family == own[j].font_family
            &&& shown[j].font_size_scale == own[j].font_size_scale
            &&& code ==> shown[j].background_color is None
            &&& !code ==> shown[j].background_color == own[j].background_color
        }
}

proof fn lemma_clipped_code<K: Kit>(
    highlights: Seq<(Range<usize>, InlineHighlight<K>)>,
    start: usize,
    end: usize,
)
    ensures
        is_code(clipped(highlights, start, end)) <==> exists|i: int|
            0 <= i < highlights.len() && (#[trigger] highlights[i]).1.font_size_scale is Some
                && clip(highlights[i].0, start, end) is Some,
    decreases highlights.len(),
{
    if highlights.len() > 0 {
        let before = highlights.drop_last();
        let last = highlights.last();
        lemma_clipped_code(before, start, end);
        let rest = clipped(before, start, end);
        let all = clipped(highlights, start, end);
        if is_code(all) {
            let i = choose|i: int|
                0 <= i < all.len() && (#[trigger] all[i]).1.font_size_scale is Some;
            if i < rest.len() {
                assert(rest[i] == all[i]);
                let j = choose|j: int|
                    0 <= j < before.len() && (#[trigger] before[j]).1.font_size_scale is Some
                        && clip(before[j].0, start, end) is Some;
                assert(highlights[j] == before[j]);
            } else {
                assert(highlights[highlights.len() - 1] == last);
            }
        }
        if exists|i: int|
            0 <= i < highlights.len() && (#[trigger] highlights[i]).1.font_size_scale is Some
                && clip(highlights[i].0, start, end) is Some {
            let i = choose|i: int|
                0 <= i < highlights.len() && (#[trigger] highlights[i]).1.font_size_scale is Some
                    && clip(highlights[i].0, start, end) is Some;
            if i < before.len() {
                assert(before[i] == highlights[i]);
                let j = choose|j: int|
                    0 <= j < rest.len() && (#[trigger] rest[j]).1.font_size_scale is Some;
                assert(all[j] == rest[j]);
            } else {
                assert(all[rest.len() as int].1 == last.1);
            }
        }
    }
}

/// The part of a text counts as code where some byte of it is marked as code.
pub proof fn law_code_is_marked_by_its_bytes<K: Kit>(
    highlights: Seq<(Range<usize>, InlineHighlight<K>)>,
    start: usize,
    end: usize,
)
    ensures
        is_code(clipped(highlights, start, end)) <==> code_within(highlights, start, end),
{
    lemma_clipped_code(highlights, start, end);
    if is_code(clipped(highlights, start, end)) {
        let i = choose|i: int|
            0 <= i < highlights.len() && (#[trigger] highlights[i]).1.font_size_scale is Some
                && clip(highlights[i].0, start, end) is Some;
        let at = if highlights[i].0.start < start {
            start as int
        } else {
            highlights[i].0.start as int
        };
        assert(covers(highlights[i].0, at));
    }
}

proof fn lemma_marks_without_backgrounds<K: Kit>(
    marks: Seq<(Range<usize>, InlineHighlight<K>)>,
    at: int,
)
    ensures
        painted_as(marks_at(marks, at), marks_at(without_backgrounds(marks), at), true),
    decreases marks.len(),
{
    let plain = without_backgrounds(marks);
    if marks.len() > 0 {
        lemma_marks_without_backgrounds(marks.drop_last(), at);
        assert(without_backgrounds(marks.drop_last()) =~= plain.drop_last());
        assert(plain.last() == (marks.last().0, marks.last().1.without_background()));
    }
}

/// A placed text and the range of its item that it shows.
spec fn keeps_marks<K: Kit>(items: Seq<ItemView<K>>, fragment: PositionedView<K>) -> bool {
    fragment matches PositionedView::Text { item_ix, source_range, links, highlights, .. } ==> {
        let item = items[item_ix as int];
        let marks = clipped(item->highlights, source_range.start, source_range.end);
        &&& item_ix < items.len()
        &&& item is Text
        &&& source_range.start < source_range.end
        &&& links == clipped(item->links, source_range.start, source_range.end)
        &&& highlights == if is_code(marks) {
            without_backgrounds(marks)
        } else {
            marks
        }
    }
}

proof fn lemma_fragment_keeps_marks<K: Kit, B: Backend<K>>(
    backend: &B,
    typography: &InlineFlowTypography<K>,
    items: Seq<ItemView<K>>,
    image_sizes: Seq<Option<Size<K::Num>>>,
    prepared: Seq<Option<MeasuredInlineObject<K>>>,
    wrap_width: Option<K::Num>,
    out: LayoutView<K>,
    k: int,
)
    requires
        items.len() <= usize::MAX,
        is_layout(backend, typography, items, image_sizes, prepared, wrap_width, out),
        0 <= k < out.fragments.len(),
    ensures
        keeps_marks(items, out.fragments[k]),
{
    let answers = choose|answers: FlowAnswers<K>| #[trigger]
        is_answers(
            backend,
            typography,
            items,
            image_sizes,
            prepared,
            wrap_width,
            answers,
        ) && out == layout_of_lines(answers.lines, wrap_width);
    let (n, i) = lemma_line_of(answers.lines, answers.lines.len() as int, k);
    let (line, range) = (answers.lines[n], answers.ranges[n]);
    let plan = line_plan(items, answers.sizes, range);
    assert(is_line(
        backend,
        typography,
        answers.line_height,
        items,
        image_sizes,
        answers.objects,
        answers.sizes,
        range,
        line,
    ));
    lemma_plan_of_first(items, answers.sizes, range, items.len() as int);
    assert(is_fragment(
        backend,
        typography,
        answers.line_height,
        line.body_baseline,
        items,
        image_sizes,
        answers.objects,
        plan[i],
        line.fragments[i],
    ));
    assert(out.fragments[k] == placed_line(line, top_after(answers.lines, n))[i]);
}

/// Every byte of a placed text has the links and the highlights, in the same
/// order, that it has in its item; the backgrounds of code are taken out.
pub proof fn law_placed_text_keeps_its_marks<K: Kit, B: Backend<K>>(
    backend: &B,
    typography: &InlineFlowTypography<K>,
    items: Seq<ItemView<K>>,
    image_sizes: Seq<Option<Size<K::Num>>>,
    prepared: Seq<Option<MeasuredInlineObject<K>>>,
    wrap_width: Option<K::Num>,
    out: LayoutView<K>,
    k: int,
    i: int,
)
    requires
        items.len() <= usize::MAX,
        is_layout(backend, typography, items, image_sizes, prepared, wrap_width, out),
        0 <= k < out.fragments.len(),
    ensures
        out.fragments[k] matches PositionedView::Text {
            item_ix,
            source_range,
            links,
            highlights,
            ..
        } ==> {
            let item = items[item_ix as int];
            let at = source_range.start + i;
            &&& item_ix < items.len() && item is Text && source_range.start < source_range.end
            &&& 0 <= i < source_range.end - source_range.start ==> {
                &&& marks_at(links, i) == marks_at(item->links, at)
                &&& painted_as(
                    marks_at(item->highlights, at),
                    marks_at(highlights, i),
                    code_within(item->highlights, source_range.start, source_range.end),
                )
            }
        },
{
    lemma_fragment_keeps_marks(
        backend,
        typography,
        items,
        image_sizes,
        prepared,
        wrap_width,
        out,
        k,
    );
    if let PositionedView::Text { item_ix, source_range, links, highlights, .. } =
        out.fragments[k] {
        let item = items[item_ix as int];
        let (start, end) = (source_range.start, source_range.end);
        if 0 <= i < end - start {
            law_clipping_keeps_marks(item->links, start, end, start + i);
            law_clipping_keeps_marks(item->highlights, start, end, start + i);
            law_code_is_marked_by_its_bytes(item->highlights, start, end);
            lemma_marks_without_backgrounds(clipped(item->highlights, start, end), i);
        }
    }
}

/// Every element that is painted is that of a fragment, and elements come in
/// the order of their fragments.
proof fn lemma_element_at<K: Kit>(
    items: Seq<InlineFlowItem<K>>,
    bounds: Bounds<K::Num>,
    fragments: Seq<PositionedView<K>>,
    n: int,
    e: int,
) -> (k: int)
    requires
        0 <= n <= fragments.len(),
        0 <= e < elements_of_first(items, bounds, fragments, n).len(),
    ensures
        e <= k < n,
        shows(items, fragments[k]),
        e == elements_of_first(items, bounds, fragments, k).len(),
        elements_of_first(items, bounds, fragments, n)[e] == element_of(
            items,
            bounds,
            fragments[k],
            texts_of_first(items, fragments, k),
            e,
        ),
    decreases n,
{
    let before = elements_of_first(items, bounds, fragments, n - 1);
    lemma_no_more_elements(items, bounds, fragments, n - 1);
    if e < before.len() {
        lemma_element_at(items, bounds, fragments, n - 1, e)
    } else {
        n - 1
    }
}

proof fn lemma_no_more_elements<K: Kit>(
    items: Seq<InlineFlowItem<K>>,
    bounds: Bounds<K::Num>,
    fragments: Seq<PositionedView<K>>,
    n: int,
)
    requires
        0 <= n <= fragments.len(),
    ensures
        elements_of_first(items, bounds, fragments, n).len() <= n,
    decreases n,
{
    if n > 0 {
        lemma_no_more_elements(items, bounds, fragments, n - 1);
    }
}

/// Every byte of a text that is painted has the links and the highlights, in
/// the same order, that it has in the item of the flow that it shows; the
/// backgrounds of code are taken out.
pub proof fn law_painted_text_keeps_its_marks<K: Kit, B: Backend<K>>(
    backend: &B,
    typography: &InlineFlowTypography<K>,
    items: Seq<InlineFlowItem<K>>,
    image_sizes: Seq<Option<Size<K::Num>>>,
    prepared: Seq<Option<MeasuredInlineObject<K>>>,
    wrap_width: Option<K::Num>,
    out: LayoutView<K>,
    bounds: Bounds<K::Num>,
    e: int,
    i: int,
)
    requires
        items.len() <= usize::MAX,
        is_layout(
            backend,
            typography,
            measured_views(items),
            image_sizes,
            prepared,
            wrap_width,
            out,
        ),
        0 <= e < elements_of_first(items, bounds, out.fragments, out.fragments.len() as int).len(),
    ensures
        elements_of_first(items, bounds, out.fragments, out.fragments.len() as int)[e]
            matches ElementView::Text { item_ix, source_range, links, highlights, .. } ==> {
            let item = items[item_ix as int];
            let at = source_range.start + i;
            &&& item_ix < items.len() && item is Text && source_range.start < source_range.end
            &&& 0 <= i < source_range.end - source_range.start ==> {
                &&& marks_at(links, i) == marks_at(item->links@, at)
                &&& painted_as(
                    marks_at(item->highlights@, at),
                    marks_at(highlights, i),
                    code_within(item->highlights@, source_range.start, source_range.end),
                )
            }
        },
{
    let n = out.fragments.len() as int;
    let k = lemma_element_at(items, bounds, out.fragments, n, e);
    law_placed_text_keeps_its_marks(
        backend,
        typography,
        measured_views(items),
        image_sizes,
        prepared,
        wrap_width,
        out,
        k,
        i,
    );
    if let PositionedView::Text { item_ix, .. } = out.fragments[k] {
        assert(measured_views(items)[item_ix as int] == items[item_ix as int].measured());
    }
}

/// Every fragment of a layout is painted once, in order, as the item that it
/// shows and as what it is.
pub proof fn law_every_fragment_is_painted<K: Kit, B: Backend<K>>(
    backend: &B,
    typography: &InlineFlowTypography<K>,
    items: Seq<InlineFlowItem<K>>,
    image_sizes: Seq<Option<Size<K::Num>>>,
    prepared: Seq<Option<MeasuredInlineObject<K>>>,
    wrap_width: Option<K::Num>,
    out: LayoutView<K>,
    bounds: Bounds<K::Num>,
)
    requires
        items.len() <= usize::MAX,
        is_layout(
            backend,
            typography,
            measured_views(items),
            image_sizes,
            prepared,
            wrap_width,
            out,
        ),
    ensures
        ({
            let elements = elements_of_first(
                items,
                bounds,
                out.fragments,
                out.fragments.len() as int,
            );
            &&& elements.len() == out.fragments.len()
            &&& forall|e: int|
                #![trigger elements[e]]
                0 <= e < elements.len() ==> paints(items, out.fragments[e], elements[e])
        }),
{
    let fragments = out.fragments;
    assert forall|k: int| 0 <= k < fragments.len() implies #[trigger] shows(
        items,
        fragments[k],
    ) by {
        law_fragments_show_items(
            backend,
            typography,
            measured_views(items),
            image_sizes,
            prepared,
            wrap_width,
            out,
            k,
        );
        assert(shows_item(measured_views(items), fragments[k]));
        let ix = shown_item(fragments[k]) as int;
        assert(measured_views(items)[ix] == items[ix].measured());
    }
    lemma_all_painted(items, bounds, fragments, fragments.len() as int);
}

/// Whether an element paints a fragment: the same item as the same thing, with
/// all that the fragment carries.
pub open spec fn paints<K: Kit>(
    items: Seq<InlineFlowItem<K>>,
    fragment: PositionedView<K>,
    element: ElementView<K>,
) -> bool {
    match fragment {
        PositionedView::Object { item_ix, object, .. } => {
            &&& element is Object
            &&& element->Object_item_ix == item_ix
            &&& items[item_ix as int] is Object
            &&& element->id == items[item_ix as int]->id
            &&& element->object == object
            &&& element->Object_available == object.metrics.size
        },
        PositionedView::Text { item_ix, source_range, font_size, text, size, .. } => {
            &&& element is Text
            &&& element->Text_item_ix == item_ix
            &&& element->source_range == source_range
            &&& element->font_size == font_size
            &&& element->text == text
            &&& element->line_height == size.height
            &&& element->Text_available.height == size.height
        },
        PositionedView::Image { item_ix, size, .. } => {
            &&& element is Image
            &&& element->Image_item_ix == item_ix
            &&& element->size == size
        },
    }
}

proof fn lemma_all_painted<K: Kit>(
    items: Seq<InlineFlowItem<K>>,
    bounds: Bounds<K::Num>,
    fragments: Seq<PositionedView<K>>,
    n: int,
)
    requires
        0 <= n <= fragments.len(),
        forall|k: int| 0 <= k < fragments.len() ==> #[trigger] shows(items, fragments[k]),
    ensures
        ({
            let elements = elements_of_first(items, bounds, fragments, n);
            &&& elements.len() == n
            &&& forall|e: int|
                #![trigger elements[e]]
                0 <= e < n ==> paints(items, fragments[e], elements[e])
        }),
    decreases n,
{
    if n > 0 {
        lemma_all_painted(items, bounds, fragments, n - 1);
        assert(shows(items, fragments[n - 1]));
    }
}

/// How many texts are painted before element `e`.
pub open spec fn texts_before<K: Kit>(elements: Seq<ElementView<K>>, e: int) -> int
    decreases e,
{
    if e <= 0 {
        0
    } else {
        texts_before(elements, e - 1) + if elements[e - 1] is Text {
            1int
        } else {
            0int
        }
    }
}

/// As many states are kept as texts are painted.
pub proof fn law_states_are_those_of_the_texts<K: Kit>(
    items: Seq<InlineFlowItem<K>>,
    bounds: Bounds<K::Num>,
    fragments: Seq<PositionedView<K>>,
    n: int,
)
    requires
        0 <= n <= fragments.len(),
    ensures
        ({
            let elements = elements_of_first(items, bounds, fragments, n);
            texts_before(elements, elements.len() as int) == texts_of_first(items, fragments, n)
        }),
    decreases n,
{
    if n > 0 {
        law_states_are_those_of_the_texts(items, bounds, fragments, n - 1);
        let before = elements_of_first(items, bounds, fragments, n - 1);
        let elements = elements_of_first(items, bounds, fragments, n);
        lemma_texts_before_prefix(before, elements, before.len() as int);
    }
}

proof fn lemma_texts_before_prefix<K: Kit>(
    a: Seq<ElementView<K>>,
    b: Seq<ElementView<K>>,
    e: int,
)
    requires
        0 <= e <= a.len() <= b.len(),
        forall|i: int| 0 <= i < e ==> a[i] == #[trigger] b[i],
    ensures
        texts_before(a, e) == texts_before(b, e),
    decreases e,
{
    if e > 0 {
        lemma_texts_before_prefix(a, b, e - 1);
        assert(a[e - 1] == b[e - 1]);
    }
}

proof fn lemma_elements_grow<K: Kit>(
    items: Seq<InlineFlowItem<K>>,
    bounds: Bounds<K::Num>,
    fragments: Seq<PositionedView<K>>,
    i: int,
    j: int,
)
    requires
        0 <= i <= j <= fragments.len(),
    ensures
        ({
            let (a, b) = (
                elements_of_first(items, bounds, fragments, i),
                elements_of_first(items, bounds, fragments, j),
            );
            &&& a.len() <= b.len()
            &&& forall|e: int| 0 <= e < a.len() ==> a[e] == #[trigger] b[e]
        }),
    decreases j,
{
    if i < j {
        lemma_elements_grow(items, bounds, fragments, i, j - 1);
    }
}

/// The texts that are painted have the states of their numbers: the first one
/// the first, and each the one after that of the text before it. An image
/// counts all that is painted before it.
pub proof fn law_painted_texts_are_numbered<K: Kit>(
    items: Seq<InlineFlowItem<K>>,
    bounds: Bounds<K::Num>,
    fragments: Seq<PositionedView<K>>,
    e: int,
)
    requires
        0 <= e < elements_of_first(items, bounds, fragments, fragments.len() as int).len(),
    ensures
        ({
            let elements = elements_of_first(items, bounds, fragments, fragments.len() as int);
            &&& elements[e] matches ElementView::Text { state_ix, .. } ==> state_ix
                == texts_before(elements, e)
            &&& elements[e] matches ElementView::Image { element_ix, .. } ==> element_ix == e
        }),
{
    let n = fragments.len() as int;
    let k = lemma_element_at(items, bounds, fragments, n, e);
    let elements = elements_of_first(items, bounds, fragments, n);
    let before = elements_of_first(items, bounds, fragments, k);
    law_states_are_those_of_the_texts(items, bounds, fragments, k);
    lemma_elements_grow(items, bounds, fragments, k, n);
    lemma_texts_before_prefix(before, elements, e);
}

/// Where an element starts.
pub open spec fn start_of<K: Kit>(element: ElementView<K>) -> Point<K::Num> {
    match element {
        ElementView::Object { origin, .. } => origin,
        ElementView::Text { origin, .. } => origin,
        ElementView::Image { origin, .. } => origin,
    }
}

/// How much room an element has.
pub open spec fn room_of<K: Kit>(element: ElementView<K>) -> Size<K::Num> {
    match element {
        ElementView::Object { available, .. } => available,
        ElementView::Text { available, .. } => available,
        ElementView::Image { size, .. } => size,
    }
}

/// Whether numbers are small enough that adding a few of them cannot saturate.
pub open spec fn small(value: Fixed) -> bool {
    -0x1000_0000_0000_0000 <= value.raw <= 0x1000_0000_0000_0000
}

/// Whether a box is small enough to be moved about without saturating.
pub open spec fn small_box(area: Bounds<Fixed>) -> bool {
    &&& small(area.origin.x) && small(area.origin.y)
    &&& small(area.size.width) && small(area.size.height)
}

/// An element is painted where its fragment lies in the flow, moved by where
/// the flow lies. Code leaves two pixels free at both its ends, anything else
/// takes all the width of its fragment.
pub proof fn law_element_is_painted_on_its_fragment<K: Kit<Num = Fixed>>(
    items: Seq<InlineFlowItem<K>>,
    bounds: Bounds<Fixed>,
    fragment: PositionedView<K>,
    state_ix: int,
    element_ix: int,
)
    requires
        small_box(bounds),
        small(origin_of(fragment).x),
        small(origin_of(fragment).y),
        small(size_of(fragment).width),
        small(size_of(fragment).height),
    ensures
        ({
            let element = element_of(items, bounds, fragment, state_ix, element_ix);
            let (left, top) = (
                bounds.origin.x.raw + origin_of(fragment).x.raw,
                bounds.origin.y.raw + origin_of(fragment).y.raw,
            );
            let free = if fragment matches PositionedView::Text { highlights, .. } && exists|i: int|
                0 <= i < highlights.len() && (#[trigger] highlights[i]).1.font_size_scale is Some {
                2 * 65536
            } else {
                0
            };
            &&& start_of(element).y.raw == top
            &&& start_of(element).x.raw - left == free
            &&& left + size_of(fragment).width.raw - (start_of(element).x.raw + room_of(
                element,
            ).width.raw) == free
            &&& room_of(element).height == size_of(fragment).height
        }),
{
    assert(Fixed::spec_ratio(2, 1).raw == 131072);
    assert(Fixed::spec_ratio(2, 1).spec_times(Fixed::spec_ratio(2, 1)).raw == 262144);
    assert(Fixed::spec_zero().spec_times(Fixed::spec_ratio(2, 1)).raw == 0);
}

/// The line of an element is that of its selection, across the whole flow: as
/// high and as far down as the selection, from the left edge of the flow to its
/// right one.
pub proof fn law_painted_line_crosses_the_flow<K: Kit<Num = Fixed>>(
    items: Seq<InlineFlowItem<K>>,
    bounds: Bounds<Fixed>,
    fragment: PositionedView<K>,
    state_ix: int,
    element_ix: int,
)
    requires
        small_box(bounds),
        selection_of(fragment) matches Some(area) && small_box(area),
    ensures
        ({
            let element = element_of(items, bounds, fragment, state_ix, element_ix);
            let area = selection_of(fragment)->0;
            let line = match element {
                ElementView::Object { line_bounds, .. } => line_bounds,
                ElementView::Text { line_bounds, .. } => line_bounds,
                ElementView::Image { .. } => bounds,
            };
            &&& !(element is Image)
            &&& line.origin.x == bounds.origin.x
            &&& line.size.width == bounds.size.width
            &&& line.origin.y.raw == bounds.origin.y.raw + area.origin.y.raw
            &&& line.size.height == area.size.height
            &&& element matches ElementView::Object { selection_bounds, .. } ==> {
                &&& selection_bounds.origin.x.raw == bounds.origin.x.raw + area.origin.x.raw
                &&& selection_bounds.origin.y.raw == bounds.origin.y.raw + area.origin.y.raw
                &&& selection_bounds.size == area.size
            }
        }),
{
}

/// The box behind code is painted where it lies in the flow, moved by where the
/// flow lies, in its own color; text without one has none painted.
pub proof fn law_background_is_painted_in_place<K: Kit<Num = Fixed>>(
    items: Seq<InlineFlowItem<K>>,
    bounds: Bounds<Fixed>,
    fragment: PositionedView<K>,
    state_ix: int,
    element_ix: int,
)
    requires
        small_box(bounds),
        fragment is Text,
        fragment->code_background matches Some((area, _)) ==> small_box(area),
    ensures
        ({
            let painted = element_of(items, bounds, fragment, state_ix, element_ix)->background;
            let behind = fragment->code_background;
            &&& painted is Some <==> behind is Some
            &&& (painted, behind) matches (Some((area, color)), Some((own, own_color))) ==> {
                &&& area.origin.x.raw == bounds.origin.x.raw + own.origin.x.raw
                &&& area.origin.y.raw == bounds.origin.y.raw + own.origin.y.raw
                &&& area.size == own.size
                &&& color == own_color
            }
        }),
{
}

/// The selections that end are those of the texts, each once and in order.
pub proof fn law_texts_lose_their_selection<K: Kit>(items: Seq<InlineFlowItem<K>>, n: int)
    requires
        0 <= n <= items.len() <= usize::MAX,
    ensures
        forall|ix: int|
            0 <= ix < n ==> (text_items(items, n).contains(ix as usize) <==> #[trigger] items[ix]
                is Text),
        forall|i: int| 0 <= i < text_items(items, n).len() ==> #[trigger] text_items(items, n)[i]
            < n,
        forall|i: int, j: int|
            0 <= i < j < text_items(items, n).len() ==> #[trigger] text_items(items, n)[i]
                < #[trigger] text_items(items, n)[j],
    decreases n,
{
    if n > 0 {
        law_texts_lose_their_selection(items, n - 1);
        let (before, all) = (text_items(items, n - 1), text_items(items, n));
        assert forall|ix: int| 0 <= ix < n implies (all.contains(ix as usize)
            <==> #[trigger] items[ix] is Text) by {
            if all.contains(ix as usize) {
                let i = choose|i: int| 0 <= i < all.len() && all[i] == ix as usize;
                if i < before.len() {
                    assert(before[i] == ix as usize);
                    assert(before.contains(ix as usize));
                    assert(before[i] < n - 1);
                }
            }
            if items[ix] is Text {
                if ix < n - 1 {
                    assert(before.contains(ix as usize));
                    let i = choose|i: int| 0 <= i < before.len() && before[i] == ix as usize;
                    assert(all[i] == ix as usize);
                } else {
                    assert(all[before.len() as int] == ix as usize);
                }
            }
        }
        assert forall|i: int| 0 <= i < all.len() implies #[trigger] all[i] < n by {
            if i < before.len() {
                assert(all[i] == before[i]);
            }
        }
        assert forall|i: int, j: int| 0 <= i < j < all.len() implies #[trigger] all[i]
            < #[trigger] all[j] by {
            assert(all[i] == before[i]);
            if j < before.len() {
                assert(all[j] == before[j]);
            }
        }
    }
}

} // verus!
