//! Setting the fragments of a flow on its lines.

use std::ops::Range;
use std::sync::Arc;

use vstd::prelude::*;

use crate::backend::{Backend, InlineFlowTypography, MeasuredInlineObject, ShapedLine};
use crate::content::{flow_len, total_len};
use crate::fragment::{
    centered_baseline, fragment_views, is_fragments, is_shaped, line_plan, measure_line,
    needed_height, shaped_line_height_and_baseline, size_views, FragmentView, KindView,
    LineFragmentKind, LineFragmentLayout, SizeRange,
};
use crate::geometry::{Bounds, Point, Size};
use crate::image::{is_image_sizes, measure_images};
use crate::item::{measure_items, measured_views, views, InlineFlowItem, ItemView, MeasureItem};
use crate::kit::Kit;
use crate::marks::{Highlights, InlineHighlight, Links};
use crate::number::Number;
use crate::wrap::{atoms_measured, flow_on_chars, is_line_ranges, line_ranges};

verus! {

/// A fragment and its place in the flow.
pub enum PositionedFragment<K: Kit> {
    Object {
        item_ix: usize,
        origin: Point<K::Num>,
        object: MeasuredInlineObject<K>,
        selection_bounds: Bounds<K::Num>,
    },
    /// The bytes `source_range` of the text of an item, which are `text`.
    Text {
        item_ix: usize,
        origin: Point<K::Num>,
        size: Size<K::Num>,
        source_range: Range<usize>,
        font_size: K::Num,
        text: String,
        links: Links<K>,
        highlights: Highlights<K>,
        selection_bounds: Bounds<K::Num>,
        /// The rounded box behind a code span, relative to the flow.
        code_background: Option<(Bounds<K::Num>, K::Color)>,
    },
    Image { item_ix: usize, origin: Point<K::Num>, size: Size<K::Num> },
}

/// A placed fragment in mathematical terms.
pub enum PositionedView<K: Kit> {
    Object {
        item_ix: usize,
        origin: Point<K::Num>,
        object: MeasuredInlineObject<K>,
        selection_bounds: Bounds<K::Num>,
    },
    Text {
        item_ix: usize,
        origin: Point<K::Num>,
        size: Size<K::Num>,
        source_range: Range<usize>,
        font_size: K::Num,
        text: Seq<char>,
        links: Seq<(Range<usize>, Arc<K::Link>)>,
        highlights: Seq<(Range<usize>, InlineHighlight<K>)>,
        selection_bounds: Bounds<K::Num>,
        code_background: Option<(Bounds<K::Num>, K::Color)>,
    },
    Image { item_ix: usize, origin: Point<K::Num>, size: Size<K::Num> },
}

impl<K: Kit> View for PositionedFragment<K> {
    type V = PositionedView<K>;

    open spec fn view(&self) -> PositionedView<K> {
        match *self {
            PositionedFragment::Object {
                item_ix,
                origin,
                object,
                selection_bounds,
            } => PositionedView::Object { item_ix, origin, object, selection_bounds },
            PositionedFragment::Text {
                item_ix,
                origin,
                size,
                source_range,
                font_size,
                text,
                links,
                highlights,
                selection_bounds,
                code_background,
            } => PositionedView::Text {
                item_ix,
                origin,
                size,
                source_range,
                font_size,
                text: text@,
                links: links@,
                highlights: highlights@,
                selection_bounds,
                code_background,
            },
            PositionedFragment::Image { item_ix, origin, size } => PositionedView::Image {
                item_ix,
                origin,
                size,
            },
        }
    }
}

/// The views of a list of placed fragments.
pub open spec fn positioned_views<K: Kit>(fragments: Seq<PositionedFragment<K>>) -> Seq<
    PositionedView<K>,
> {
    fragments.map_values(|fragment: PositionedFragment<K>| fragment@)
}

/// A laid out flow.
pub struct InlineFlowLayout<K: Kit> {
    pub fragments: Vec<PositionedFragment<K>>,
    pub size: Size<K::Num>,
    pub wrap_width: Option<K::Num>,
}

/// A laid out flow in mathematical terms.
pub struct LayoutView<K: Kit> {
    pub fragments: Seq<PositionedView<K>>,
    pub size: Size<K::Num>,
    pub wrap_width: Option<K::Num>,
}

impl<K: Kit> View for InlineFlowLayout<K> {
    type V = LayoutView<K>;

    open spec fn view(&self) -> LayoutView<K> {
        LayoutView {
            fragments: positioned_views(self.fragments@),
            size: self.size,
            wrap_width: self.wrap_width,
        }
    }
}

/// A line: the box that text in the font of the flow takes on it, and its
/// measured fragments.
pub struct LineView<K: Kit> {
    pub body_height: K::Num,
    pub body_baseline: K::Num,
    pub fragments: Seq<FragmentView<K>>,
}

/// How far the first `n` fragments of a line reach above its baseline; at
/// least as far as text in the font of the flow.
pub open spec fn ascent_of_first<K: Kit>(line: LineView<K>, n: int) -> K::Num
    decreases n,
{
    if n <= 0 {
        line.body_baseline
    } else {
        ascent_of_first(line, n - 1).spec_larger(line.fragments[n - 1].baseline)
    }
}

/// How far the first `n` fragments of a line reach below its baseline; at
/// least as far as text in the font of the flow.
pub open spec fn descent_of_first<K: Kit>(line: LineView<K>, n: int) -> K::Num
    decreases n,
{
    if n <= 0 {
        line.body_height.spec_minus(line.body_baseline)
    } else {
        descent_of_first(line, n - 1).spec_larger(
            line.fragments[n - 1].size.height.spec_minus(line.fragments[n - 1].baseline),
        )
    }
}

/// How wide the first `n` fragments of a line are together.
pub open spec fn width_of_first<K: Kit>(line: LineView<K>, n: int) -> K::Num
    decreases n,
{
    if n <= 0 {
        K::Num::spec_zero()
    } else {
        width_of_first(line, n - 1).spec_plus(line.fragments[n - 1].size.width)
    }
}

impl<K: Kit> LineView<K> {
    /// How far the line reaches above its baseline.
    pub open spec fn ascent(self) -> K::Num {
        ascent_of_first(self, self.fragments.len() as int)
    }

    /// How far the line reaches below its baseline.
    pub open spec fn descent(self) -> K::Num {
        descent_of_first(self, self.fragments.len() as int)
    }

    /// How wide the line is.
    pub open spec fn width(self) -> K::Num {
        width_of_first(self, self.fragments.len() as int)
    }

    /// How high the line is.
    pub open spec fn height(self) -> K::Num {
        self.ascent().spec_plus(self.descent())
    }
}

/// A fragment placed at `x` on a line whose top is at `y`: its baseline is
/// that of the line. Its selection covers the whole height of the line.
pub open spec fn positioned<K: Kit>(
    fragment: FragmentView<K>,
    x: K::Num,
    y: K::Num,
    ascent: K::Num,
    descent: K::Num,
) -> PositionedView<K> {
    let origin = Point { x, y: y.spec_plus(ascent).spec_minus(fragment.baseline) };
    let selection_bounds = Bounds {
        origin: Point { x, y },
        size: Size { width: fragment.size.width, height: ascent.spec_plus(descent) },
    };
    match fragment.kind {
        KindView::Object(object) => PositionedView::Object {
            item_ix: fragment.item_ix,
            origin,
            object,
            selection_bounds,
        },
        KindView::Text {
            font_size,
            text,
            links,
            highlights,
            code_background,
        } => PositionedView::Text {
            item_ix: fragment.item_ix,
            origin,
            size: fragment.size,
            source_range: fragment.source_range,
            font_size,
            text,
            links,
            highlights,
            selection_bounds,
            code_background: match code_background {
                Some((background, color)) => Some(
                    (
                        Bounds {
                            origin: origin.spec_moved(background.origin),
                            size: background.size,
                        },
                        color,
                    ),
                ),
                None => None,
            },
        },
        KindView::Image => PositionedView::Image {
            item_ix: fragment.item_ix,
            origin,
            size: fragment.size,
        },
    }
}

/// The fragments of a line whose top is at `y`, side by side from the left.
pub open spec fn placed_line<K: Kit>(line: LineView<K>, y: K::Num) -> Seq<PositionedView<K>> {
    Seq::new(
        line.fragments.len(),
        |i: int|
            positioned(
                line.fragments[i],
                width_of_first(line, i),
                y,
                line.ascent(),
                line.descent(),
            ),
    )
}

/// Where the line after the first `n` starts: below them all.
pub open spec fn top_after<K: Kit>(lines: Seq<LineView<K>>, n: int) -> K::Num
    decreases n,
{
    if n <= 0 {
        K::Num::spec_zero()
    } else {
        top_after(lines, n - 1).spec_plus(lines[n - 1].height())
    }
}

/// The width of the widest of the first `n` lines.
pub open spec fn widest<K: Kit>(lines: Seq<LineView<K>>, n: int) -> K::Num
    decreases n,
{
    if n <= 0 {
        K::Num::spec_zero()
    } else {
        widest(lines, n - 1).spec_larger(lines[n - 1].width())
    }
}

/// The fragments of the first `n` lines, line below line.
pub open spec fn placed_lines<K: Kit>(lines: Seq<LineView<K>>, n: int) -> Seq<PositionedView<K>>
    decreases n,
{
    if n <= 0 {
        Seq::empty()
    } else {
        placed_lines(lines, n - 1) + placed_line(lines[n - 1], top_after(lines, n - 1))
    }
}

/// The layout of the given lines.
pub open spec fn layout_of_lines<K: Kit>(
    lines: Seq<LineView<K>>,
    wrap_width: Option<K::Num>,
) -> LayoutView<K> {
    LayoutView {
        fragments: placed_lines(lines, lines.len() as int),
        size: Size {
            width: widest(lines, lines.len() as int),
            height: top_after(lines, lines.len() as int),
        },
        wrap_width,
    }
}

/// The layout of a flow without units.
pub open spec fn empty_layout<K: Kit>(wrap_width: Option<K::Num>) -> LayoutView<K> {
    LayoutView { fragments: Seq::empty(), size: Size::spec_nothing(), wrap_width }
}

/// A line: the box that text in the font of the flow takes on it, and its
/// measured fragments.
pub struct MeasuredLine<K: Kit> {
    pub body_height: K::Num,
    pub body_baseline: K::Num,
    pub fragments: Vec<LineFragmentLayout<K>>,
}

impl<K: Kit> View for MeasuredLine<K> {
    type V = LineView<K>;

    open spec fn view(&self) -> LineView<K> {
        LineView {
            body_height: self.body_height,
            body_baseline: self.body_baseline,
            fragments: fragment_views(self.fragments@),
        }
    }
}

/// The views of a list of lines.
pub open spec fn line_views<K: Kit>(lines: Seq<MeasuredLine<K>>) -> Seq<LineView<K>> {
    lines.map_values(|line: MeasuredLine<K>| line@)
}

impl<K: Kit> MeasuredLine<K> {
    /// How far the line reaches above and below its baseline, and how wide it
    /// is.
    fn extent(&self) -> (r: (K::Num, K::Num, K::Num))
        ensures
            r == (self@.ascent(), self@.descent(), self@.width()),
    {
        let mut ascent: K::Num = self.body_baseline;
        let mut descent: K::Num = self.body_height.minus(self.body_baseline);
        let mut width: K::Num = K::Num::zero();
        for ix in 0..self.fragments.len()
            invariant
                ascent == ascent_of_first(self@, ix as int),
                descent == descent_of_first(self@, ix as int),
                width == width_of_first(self@, ix as int),
        {
            let fragment = &self.fragments[ix];
            assert(self@.fragments[ix as int] == fragment@);
            ascent = ascent.larger(fragment.baseline);
            descent = descent.larger(fragment.size.height.minus(fragment.baseline));
            width = width.plus(fragment.size.width);
        }
        (ascent, descent, width)
    }
}

/// Places the fragments of a line whose top is at `y`.
fn place_line<K: Kit>(
    fragments: &mut Vec<PositionedFragment<K>>,
    measured: MeasuredLine<K>,
    y: K::Num,
    line_ascent: K::Num,
    line_descent: K::Num,
)
    requires
        line_ascent == measured@.ascent(),
        line_descent == measured@.descent(),
    ensures
        positioned_views(final(fragments)@) == positioned_views(old(fragments)@) + placed_line(
            measured@,
            y,
        ),
{
    let ghost line = measured@;
    let line_fragments = measured.fragments;
    let ghost before = positioned_views(fragments@);
    let ghost given = line_fragments@;
    let mut x: K::Num = K::Num::zero();
    assert(before =~= before + placed_line(line, y).take(0));
    for fragment in it: line_fragments
        invariant
            it.seq() == given,
            line.fragments == fragment_views(given),
            line_ascent == line.ascent(),
            line_descent == line.descent(),
            x == width_of_first(line, it.index() as int),
            positioned_views(fragments@) == before + placed_line(line, y).take(it.index() as int),
    {
        let ghost ix = it.index() as int;
        let ghost so_far = positioned_views(fragments@);
        assert(line.fragments[ix] == fragment@);
        let origin = Point { x, y: y.plus(line_ascent).minus(fragment.baseline) };
        let selection_bounds = Bounds {
            origin: Point { x, y },
            size: Size { width: fragment.size.width, height: line_ascent.plus(line_descent) },
        };
        let width: K::Num = fragment.size.width;
        let positioned: PositionedFragment<K> = match fragment.kind {
            LineFragmentKind::Object(object) => PositionedFragment::Object {
                item_ix: fragment.item_ix,
                origin,
                object,
                selection_bounds,
            },
            LineFragmentKind::Text {
                font_size,
                text,
                links,
                highlights,
                code_background,
            } => PositionedFragment::Text {
                item_ix: fragment.item_ix,
                origin,
                size: fragment.size,
                source_range: fragment.source_range,
                font_size,
                text,
                links,
                highlights,
                selection_bounds,
                code_background: match code_background {
                    Some((background, color)) => Some(
                        (
                            Bounds {
                                origin: origin.moved(background.origin),
                                size: background.size,
                            },
                            color,
                        ),
                    ),
                    None => None,
                },
            },
            LineFragmentKind::Image => PositionedFragment::Image {
                item_ix: fragment.item_ix,
                origin,
                size: fragment.size,
            },
        };
        x = x.plus(width);
        proof {
            assert(positioned@ == placed_line(line, y)[ix]);
        }
        fragments.push(positioned);
        proof {
            assert(positioned_views(fragments@) =~= so_far.push(positioned@));
            assert(placed_line(line, y).take(ix + 1) =~= placed_line(line, y).take(ix).push(
                placed_line(line, y)[ix],
            ));
        }
    }
    assert(placed_line(line, y).take(given.len() as int) =~= placed_line(line, y));
}

/// Sets measured lines one below the other.
pub fn place_lines<K: Kit>(
    lines: Vec<MeasuredLine<K>>,
    wrap_width: Option<K::Num>,
) -> (r: InlineFlowLayout<K>)
    ensures
        r@ == layout_of_lines(line_views(lines@), wrap_width),
{
    let ghost given = lines@;
    let ghost all = line_views(lines@);
    let mut fragments: Vec<PositionedFragment<K>> = Vec::new();
    let mut max_width: K::Num = K::Num::zero();
    let mut y: K::Num = K::Num::zero();
    assert(positioned_views(fragments@) =~= Seq::empty());
    for line in it: lines
        invariant
            it.seq() == given,
            all == line_views(given),
            positioned_views(fragments@) == placed_lines(all, it.index() as int),
            max_width == widest(all, it.index() as int),
            y == top_after(all, it.index() as int),
    {
        assert(all[it.index() as int] == line@);
        let (line_ascent, line_descent, line_width) = line.extent();
        place_line(&mut fragments, line, y, line_ascent, line_descent);
        max_width = max_width.larger(line_width);
        y = y.plus(line_ascent.plus(line_descent));
    }
    InlineFlowLayout { fragments, size: Size { width: max_width, height: y }, wrap_width }
}

/// Whether the window may answer that text in the font of the flow takes a
/// box of the given height with its baseline there.
pub open spec fn is_body<K: Kit, B: Backend<K>>(
    backend: &B,
    typography: &InlineFlowTypography<K>,
    line_height: K::Num,
    height: K::Num,
    baseline: K::Num,
) -> bool {
    exists|shaped: ShapedLine<K::Num>| #[trigger]
        is_shaped(
            backend,
            typography,
            seq![' '],
            Range { start: 0, end: 1 },
            typography.spec_font_pixels(),
            Seq::empty(),
            shaped,
        ) && call_ensures(
            B::pixel_snap,
            (backend, needed_height(shaped, line_height)),
            height,
        ) && baseline == centered_baseline(shaped, height)
}

/// Whether `out` is a line that `range` of a flow may be measured to.
pub open spec fn is_line<K: Kit, B: Backend<K>>(
    backend: &B,
    typography: &InlineFlowTypography<K>,
    line_height: K::Num,
    items: Seq<ItemView<K>>,
    image_sizes: Seq<Option<Size<K::Num>>>,
    objects: Seq<Option<MeasuredInlineObject<K>>>,
    sizes: Seq<Seq<SizeRange<K::Num>>>,
    range: Range<usize>,
    out: LineView<K>,
) -> bool {
    &&& is_body(backend, typography, line_height, out.body_height, out.body_baseline)
    &&& is_fragments(
        backend,
        typography,
        line_height,
        out.body_baseline,
        items,
        image_sizes,
        objects,
        line_plan(items, sizes, range),
        out.fragments,
    )
}

/// Whether `out` are lines that the given ranges of a flow may be measured to.
pub open spec fn is_lines<K: Kit, B: Backend<K>>(
    backend: &B,
    typography: &InlineFlowTypography<K>,
    line_height: K::Num,
    items: Seq<ItemView<K>>,
    image_sizes: Seq<Option<Size<K::Num>>>,
    objects: Seq<Option<MeasuredInlineObject<K>>>,
    sizes: Seq<Seq<SizeRange<K::Num>>>,
    ranges: Seq<Range<usize>>,
    out: Seq<LineView<K>>,
) -> bool {
    &&& out.len() == ranges.len()
    &&& forall|i: int|
        #![trigger out[i]]
        0 <= i < out.len() ==> is_line(
            backend,
            typography,
            line_height,
            items,
            image_sizes,
            objects,
            sizes,
            ranges[i],
            out[i],
        )
}

/// Measures the lines of a flow.
fn measure_lines<K: Kit, B: Backend<K>>(
    items: &[MeasureItem<K>],
    image_sizes: &[Option<Size<K::Num>>],
    objects: &[Option<MeasuredInlineObject<K>>],
    sizes: &[Vec<SizeRange<K::Num>>],
    ranges: &[Range<usize>],
    typography: &InlineFlowTypography<K>,
    line_height: K::Num,
    backend: &B,
) -> (r: Vec<MeasuredLine<K>>)
    requires
        flow_len(views(items@)) <= usize::MAX,
        sizes@.len() == items@.len(),
        atoms_measured(views(items@), image_sizes@, objects@),
    ensures
        is_lines(
            backend,
            typography,
            line_height,
            views(items@),
            image_sizes@,
            objects@,
            size_views(sizes@),
            ranges@,
            line_views(r@),
        ),
{
    let font_size: K::Num = typography.font_pixels();
    let mut out: Vec<MeasuredLine<K>> = Vec::new();
    for ix in 0..ranges.len()
        invariant
            font_size == typography.spec_font_pixels(),
            flow_len(views(items@)) <= usize::MAX,
            sizes@.len() == items@.len(),
            atoms_measured(views(items@), image_sizes@, objects@),
            is_lines(
                backend,
                typography,
                line_height,
                views(items@),
                image_sizes@,
                objects@,
                size_views(sizes@),
                ranges@.take(ix as int),
                line_views(out@),
            ),
    {
        let ghost before = line_views(out@);
        let no_marks: Highlights<K> = Vec::new();
        let body: ShapedLine<K::Num> = backend.shape_line(
            " ",
            0..1,
            &typography.text_style,
            font_size,
            &no_marks,
        );
        proof {
            reveal_strlit(" ");
            assert(" "@ =~= seq![' ']);
            assert(no_marks@ =~= Seq::empty());
            assert(is_shaped(
                backend,
                typography,
                seq![' '],
                Range { start: 0, end: 1 },
                font_size,
                Seq::empty(),
                body,
            ));
        }
        let (body_height, body_baseline) = shaped_line_height_and_baseline::<K, B>(
            &body,
            line_height,
            backend,
        );
        let fragments = measure_line(
            items,
            image_sizes,
            objects,
            sizes,
            &ranges[ix],
            typography,
            line_height,
            body_baseline,
            backend,
        );
        let line = MeasuredLine { body_height, body_baseline, fragments };
        proof {
            assert(is_body(backend, typography, line_height, body_height, body_baseline));
        }
        out.push(line);
        assert(line_views(out@) =~= before.push(line@));
    }
    assert(ranges@.take(ranges@.len() as int) =~= ranges@);
    out
}

/// Whether `out` are stretches of one size that the text of `item` may have.
pub open spec fn is_sizes<K: Kit, B: Backend<K>>(
    backend: &B,
    item: ItemView<K>,
    out: Seq<SizeRange<K::Num>>,
) -> bool {
    match item {
        ItemView::Text { highlights, .. } => exists|
            marks: Highlights<K>,
            answer: Vec<SizeRange<K::Num>>,
        |
            marks@ == highlights && answer@ == out && #[trigger] call_ensures(
                B::text_size_ranges,
                (backend, item.len() as usize, &marks),
                answer,
            ),
        _ => out.len() == 0,
    }
}

/// Whether `out` are stretches of one size that the items of a flow may have.
pub open spec fn is_all_sizes<K: Kit, B: Backend<K>>(
    backend: &B,
    items: Seq<ItemView<K>>,
    out: Seq<Seq<SizeRange<K::Num>>>,
) -> bool {
    &&& out.len() == items.len()
    &&& forall|ix: int|
        #![trigger out[ix]]
        0 <= ix < out.len() ==> is_sizes(backend, items[ix], out[ix])
}

/// Asks for the stretches of one size of each item.
fn size_ranges<K: Kit, B: Backend<K>>(items: &[MeasureItem<K>], backend: &B) -> (r: Vec<
    Vec<SizeRange<K::Num>>,
>)
    ensures
        is_all_sizes(backend, views(items@), size_views(r@)),
{
    let ghost all = views(items@);
    let mut out: Vec<Vec<SizeRange<K::Num>>> = Vec::new();
    for ix in 0..items.len()
        invariant
            all == views(items@),
            is_all_sizes(backend, all.take(ix as int), size_views(out@)),
    {
        let ghost before = size_views(out@);
        assert(all[ix as int] == items@[ix as int]@);
        let stretches: Vec<SizeRange<K::Num>> = match &items[ix] {
            MeasureItem::Text { highlights, .. } => backend.text_size_ranges(
                items[ix].len(),
                highlights,
            ),
            MeasureItem::Image { .. } | MeasureItem::Object { .. } => Vec::new(),
        };
        assert(is_sizes(backend, all[ix as int], stretches@));
        out.push(stretches);
        assert(size_views(out@) =~= before.push(stretches@));
    }
    assert(all.take(all.len() as int) =~= all);
    out
}

/// Whether `out` are the given objects with their text fitted to `wrap_width`.
pub open spec fn is_fitted<K: Kit, B: Backend<K>>(
    backend: &B,
    prepared: Seq<Option<MeasuredInlineObject<K>>>,
    wrap_width: Option<K::Num>,
    out: Seq<Option<MeasuredInlineObject<K>>>,
) -> bool {
    &&& out.len() == prepared.len()
    &&& forall|ix: int|
        #![trigger out[ix]]
        0 <= ix < out.len() ==> match (prepared[ix], out[ix]) {
            (Some(object), Some(fitted)) => call_ensures(
                B::fit_text,
                (backend, &object, wrap_width),
                fitted,
            ),
            (None, None) => true,
            _ => false,
        }
}

/// Fits the text of each object to `wrap_width`.
fn fit_objects<K: Kit, B: Backend<K>>(
    prepared: &[Option<MeasuredInlineObject<K>>],
    wrap_width: Option<K::Num>,
    backend: &B,
) -> (r: Vec<Option<MeasuredInlineObject<K>>>)
    ensures
        is_fitted(backend, prepared@, wrap_width, r@),
{
    let mut out: Vec<Option<MeasuredInlineObject<K>>> = Vec::new();
    for ix in 0..prepared.len()
        invariant
            is_fitted(backend, prepared@.take(ix as int), wrap_width, out@),
    {
        let fitted: Option<MeasuredInlineObject<K>> = match &prepared[ix] {
            Some(object) => Some(backend.fit_text(object, wrap_width)),
            None => None,
        };
        out.push(fitted);
    }
    assert(prepared@.take(prepared@.len() as int) =~= prepared@);
    out
}

/// What a layout came from besides its input: the answers of the window.
pub struct FlowAnswers<K: Kit> {
    pub line_height: K::Num,
    pub objects: Seq<Option<MeasuredInlineObject<K>>>,
    pub sizes: Seq<Seq<SizeRange<K::Num>>>,
    pub ranges: Seq<Range<usize>>,
    pub lines: Seq<LineView<K>>,
}

/// Whether the window may give these answers when a flow is laid out.
pub open spec fn is_answers<K: Kit, B: Backend<K>>(
    backend: &B,
    typography: &InlineFlowTypography<K>,
    items: Seq<ItemView<K>>,
    image_sizes: Seq<Option<Size<K::Num>>>,
    prepared: Seq<Option<MeasuredInlineObject<K>>>,
    wrap_width: Option<K::Num>,
    answers: FlowAnswers<K>,
) -> bool {
    &&& call_ensures(B::pixel_snap, (backend, typography.line_height), answers.line_height)
    &&& is_fitted(backend, prepared, wrap_width, answers.objects)
    &&& is_all_sizes(backend, items, answers.sizes)
    &&& is_line_ranges(
        backend,
        typography,
        items,
        image_sizes,
        answers.objects,
        wrap_width,
        answers.ranges,
    )
    &&& is_lines(
        backend,
        typography,
        answers.line_height,
        items,
        image_sizes,
        answers.objects,
        answers.sizes,
        answers.ranges,
        answers.lines,
    )
}

/// Whether `out` is a layout of a flow: nothing where it has no units, and
/// otherwise its lines one below the other, as the window measured them.
pub open spec fn is_layout<K: Kit, B: Backend<K>>(
    backend: &B,
    typography: &InlineFlowTypography<K>,
    items: Seq<ItemView<K>>,
    image_sizes: Seq<Option<Size<K::Num>>>,
    prepared: Seq<Option<MeasuredInlineObject<K>>>,
    wrap_width: Option<K::Num>,
    out: LayoutView<K>,
) -> bool {
    if flow_len(items) == 0 {
        out == empty_layout::<K>(wrap_width)
    } else {
        exists|answers: FlowAnswers<K>| #[trigger]
            is_answers(
                backend,
                typography,
                items,
                image_sizes,
                prepared,
                wrap_width,
                answers,
            ) && out == layout_of_lines(answers.lines, wrap_width)
    }
}

/// Lays out a flow whose images and objects were measured.
pub fn layout_measured_flow<K: Kit, B: Backend<K>>(
    items: &[MeasureItem<K>],
    image_sizes: &[Option<Size<K::Num>>],
    prepared_objects: &[Option<MeasuredInlineObject<K>>],
    typography: &InlineFlowTypography<K>,
    wrap_width: Option<K::Num>,
    backend: &B,
) -> (r: InlineFlowLayout<K>)
    requires
        flow_len(views(items@)) <= usize::MAX,
        atoms_measured(views(items@), image_sizes@, prepared_objects@),
        wrap_width is Some ==> flow_on_chars(views(items@)),
    ensures
        is_layout(
            backend,
            typography,
            views(items@),
            image_sizes@,
            prepared_objects@,
            wrap_width,
            r@,
        ),
{
    let line_height: K::Num = backend.pixel_snap(typography.line_height);
    if total_len(items) == 0 {
        let layout = InlineFlowLayout { fragments: Vec::new(), size: Size::nothing(), wrap_width };
        assert(layout@.fragments =~= Seq::empty());
        return layout;
    }
    let objects = fit_objects(prepared_objects, wrap_width, backend);
    proof {
        assert forall|ix: int|
            #![trigger views(items@)[ix]]
            0 <= ix < views(items@).len() && views(items@)[ix] is Object implies ix < objects@.len()
            && objects@[ix] is Some by {
            assert(prepared_objects@[ix] is Some);
        }
    }
    let ranges = line_ranges(
        items,
        image_sizes,
        objects.as_slice(),
        typography,
        wrap_width,
        backend,
    );
    let sizes = size_ranges(items, backend);
    let lines = measure_lines(
        items,
        image_sizes,
        objects.as_slice(),
        sizes.as_slice(),
        ranges.as_slice(),
        typography,
        line_height,
        backend,
    );
    proof {
        let answers = FlowAnswers {
            line_height,
            objects: objects@,
            sizes: size_views(sizes@),
            ranges: ranges@,
            lines: line_views(lines@),
        };
        assert(is_answers(
            backend,
            typography,
            views(items@),
            image_sizes@,
            prepared_objects@,
            wrap_width,
            answers,
        ));
    }
    place_lines(lines, wrap_width)
}

/// Whether `out` are the objects of a flow as the window may draw them, at
/// the places of their items.
pub open spec fn is_prepared<K: Kit, B: Backend<K>>(
    backend: &B,
    typography: &InlineFlowTypography<K>,
    items: Seq<ItemView<K>>,
    out: Seq<Option<MeasuredInlineObject<K>>>,
) -> bool {
    &&& out.len() == items.len()
    &&& forall|ix: int|
        #![trigger out[ix]]
        0 <= ix < out.len() ==> match (items[ix], out[ix]) {
            (ItemView::Object { text, id, renderer, style }, Some(object)) => is_drawn(
                backend,
                typography,
                text,
                id,
                renderer,
                style,
                object,
            ),
            (ItemView::Object { .. }, None) => false,
            (_, drawn) => drawn is None,
        }
}

/// Whether the window may draw an object as `object`.
pub open spec fn is_drawn<K: Kit, B: Backend<K>>(
    backend: &B,
    typography: &InlineFlowTypography<K>,
    text: Seq<char>,
    id: usize,
    renderer: Arc<K::Renderer>,
    style: K::Style,
    object: MeasuredInlineObject<K>,
) -> bool {
    exists|asked: &str|
        asked@ == text && #[trigger] call_ensures(
            B::draw_object,
            (backend, asked, id, &renderer, &style, &typography.text_style),
            object,
        )
}

/// Draws and measures the objects of a flow.
pub fn prepare_objects<K: Kit, B: Backend<K>>(
    items: &[MeasureItem<K>],
    typography: &InlineFlowTypography<K>,
    backend: &B,
) -> (r: Vec<Option<MeasuredInlineObject<K>>>)
    ensures
        is_prepared(backend, typography, views(items@), r@),
{
    let ghost all = views(items@);
    let mut out: Vec<Option<MeasuredInlineObject<K>>> = Vec::new();
    for ix in 0..items.len()
        invariant
            all == views(items@),
            is_prepared(backend, typography, all.take(ix as int), out@),
    {
        assert(all[ix as int] == items@[ix as int]@);
        let drawn: Option<MeasuredInlineObject<K>> = match &items[ix] {
            MeasureItem::Object { text, id, renderer, style } => {
                let object = backend.draw_object(
                    text.as_str(),
                    *id,
                    renderer,
                    style,
                    &typography.text_style,
                );
                assert(is_drawn(backend, typography, text@, *id, *renderer, *style, object));
                Some(object)
            },
            MeasureItem::Text { .. } | MeasureItem::Image { .. } => None,
        };
        out.push(drawn);
    }
    assert(all.take(all.len() as int) =~= all);
    out
}

/// Whether `out` is a layout of a flow whose objects the window draws for it.
pub open spec fn is_drawn_layout<K: Kit, B: Backend<K>>(
    backend: &B,
    typography: &InlineFlowTypography<K>,
    items: Seq<ItemView<K>>,
    image_sizes: Seq<Option<Size<K::Num>>>,
    wrap_width: Option<K::Num>,
    out: LayoutView<K>,
) -> bool {
    exists|objects: Seq<Option<MeasuredInlineObject<K>>>| #[trigger]
        is_prepared(backend, typography, items, objects) && is_layout(
            backend,
            typography,
            items,
            image_sizes,
            objects,
            wrap_width,
            out,
        )
}

/// Whether every image of a flow was measured.
pub open spec fn images_measured<K: Kit>(
    items: Seq<ItemView<K>>,
    image_sizes: Seq<Option<Size<K::Num>>>,
) -> bool {
    forall|ix: int|
        #![trigger items[ix]]
        0 <= ix < items.len() && items[ix] is Image ==> ix < image_sizes.len()
            && image_sizes[ix] is Some
}

/// Lays out a flow whose images were measured.
pub fn layout_flow<K: Kit, B: Backend<K>>(
    items: &[MeasureItem<K>],
    image_sizes: &[Option<Size<K::Num>>],
    typography: &InlineFlowTypography<K>,
    wrap_width: Option<K::Num>,
    backend: &B,
) -> (r: InlineFlowLayout<K>)
    requires
        flow_len(views(items@)) <= usize::MAX,
        images_measured(views(items@), image_sizes@),
        wrap_width is Some ==> flow_on_chars(views(items@)),
    ensures
        is_drawn_layout(backend, typography, views(items@), image_sizes@, wrap_width, r@),
{
    let objects = prepare_objects(items, typography, backend);
    proof {
        assert forall|ix: int|
            #![trigger views(items@)[ix]]
            0 <= ix < views(items@).len() && views(items@)[ix] is Object implies ix < objects@.len()
            && objects@[ix] is Some by {
            assert(objects@[ix] is Some);
        }
    }
    layout_measured_flow(
        items,
        image_sizes,
        objects.as_slice(),
        typography,
        wrap_width,
        backend,
    )
}

/// Whether a flow may be `width` wide where nothing wraps it.
pub open spec fn is_intrinsic_width<K: Kit, B: Backend<K>>(
    backend: &B,
    typography: &InlineFlowTypography<K>,
    items: Seq<ItemView<K>>,
    width: K::Num,
) -> bool {
    exists|image_sizes: Seq<Option<Size<K::Num>>>, layout: LayoutView<K>| #[trigger]
        is_image_sizes(backend, typography, items, image_sizes) && #[trigger] is_drawn_layout(
            backend,
            typography,
            items,
            image_sizes,
            None,
            layout,
        ) && width == layout.size.width
}

/// How wide a flow is where nothing wraps it.
pub fn intrinsic_width<K: Kit, B: Backend<K>>(
    items: &[InlineFlowItem<K>],
    typography: &InlineFlowTypography<K>,
    backend: &B,
) -> (r: K::Num)
    requires
        flow_len(measured_views(items@)) <= usize::MAX,
    ensures
        is_intrinsic_width(backend, typography, measured_views(items@), r),
{
    let items = measure_items(items);
    let images = measure_images(items.as_slice(), typography, backend);
    proof {
        assert forall|ix: int|
            #![trigger views(items@)[ix]]
            0 <= ix < views(items@).len() && views(items@)[ix] is Image implies ix < images@.len()
            && images@[ix] is Some by {
            assert(images@[ix] is Some);
        }
    }
    let layout = layout_flow(items.as_slice(), images.as_slice(), typography, None, backend);
    layout.size.width
}

} // verus!
