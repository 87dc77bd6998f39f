//! The fragments that a line is made of, and what measuring them takes.

use std::ops::Range;
use std::sync::Arc;

use vstd::prelude::*;

use crate::backend::{
    Backend, InlineFlowTypography, MeasuredInlineObject, ShapedLine,
};
use crate::content::{flow_len, lemma_offset_monotone, lemma_offset_step, offset};
use crate::geometry::{Bounds, Point, Size};
use crate::item::{views, ItemView, MeasureItem, IMAGE_LEN};
use crate::kit::Kit;
use crate::marks::{clipped, slice_ranges, Highlights, InlineHighlight, Links};
use crate::number::Number;
use crate::spans::code_padding;
use crate::text::{chars_in, text_in};
use crate::wrap::{atoms_measured, local_range, reaches};

verus! {

/// A stretch of one size: its bytes, and the factor on the size of the text.
pub type SizeRange<N> = (Range<usize>, N);

/// A fragment of a line before it is measured.
pub enum PlannedFragment<N> {
    /// The bytes `start..end` of a text, which are of one size.
    Text { item_ix: usize, start: usize, end: usize, scale: N },
    /// An image or an object.
    Atom { item_ix: usize },
}

/// The fragments of `range` of a text of the given stretches of one size.
pub open spec fn text_plan<N>(
    item_ix: usize,
    sizes: Seq<SizeRange<N>>,
    range: Range<usize>,
) -> Seq<PlannedFragment<N>>
    decreases sizes.len(),
{
    if sizes.len() == 0 {
        Seq::empty()
    } else {
        let before = text_plan(item_ix, sizes.drop_last(), range);
        let (stretch, scale) = sizes.last();
        let start = if range.start < stretch.start { stretch.start } else { range.start };
        let end = if stretch.end < range.end { stretch.end } else { range.end };
        if start < end {
            before.push(PlannedFragment::Text { item_ix, start, end, scale })
        } else {
            before
        }
    }
}

/// The fragments of item `ix` in `line`.
pub open spec fn item_plan<K: Kit>(
    items: Seq<ItemView<K>>,
    sizes: Seq<Seq<SizeRange<K::Num>>>,
    line: Range<usize>,
    ix: int,
) -> Seq<PlannedFragment<K::Num>> {
    if !reaches(items, ix, line) {
        Seq::empty()
    } else if items[ix] is Text {
        text_plan(ix as usize, sizes[ix], local_range(items, ix, line))
    } else {
        seq![PlannedFragment::Atom { item_ix: ix as usize }]
    }
}

/// The fragments of the first `n` items in `line`.
pub open spec fn plan_of_first<K: Kit>(
    items: Seq<ItemView<K>>,
    sizes: Seq<Seq<SizeRange<K::Num>>>,
    line: Range<usize>,
    n: int,
) -> Seq<PlannedFragment<K::Num>>
    decreases n,
{
    if n <= 0 {
        Seq::empty()
    } else {
        plan_of_first(items, sizes, line, n - 1) + item_plan(items, sizes, line, n - 1)
    }
}

/// The fragments of `line`: those of each item, one item after the other.
pub open spec fn line_plan<K: Kit>(
    items: Seq<ItemView<K>>,
    sizes: Seq<Seq<SizeRange<K::Num>>>,
    line: Range<usize>,
) -> Seq<PlannedFragment<K::Num>> {
    plan_of_first(items, sizes, line, items.len() as int)
}

/// The stretches of one size of each item.
pub open spec fn size_views<N>(sizes: Seq<Vec<SizeRange<N>>>) -> Seq<Seq<SizeRange<N>>> {
    sizes.map_values(|stretches: Vec<SizeRange<N>>| stretches@)
}

/// Finds the fragments of `line`.
pub fn plan_line<K: Kit>(
    items: &[MeasureItem<K>],
    sizes: &[Vec<SizeRange<K::Num>>],
    line: &Range<usize>,
) -> (r: Vec<PlannedFragment<K::Num>>)
    requires
        flow_len(views(items@)) <= usize::MAX,
        sizes@.len() == items@.len(),
    ensures
        r@ == line_plan(views(items@), size_views(sizes@), *line),
{
    let ghost all = views(items@);
    let ghost stretches = size_views(sizes@);
    let mut out: Vec<PlannedFragment<K::Num>> = Vec::new();
    let mut item_start: usize = 0;
    for ix in 0..items.len()
        invariant
            all == views(items@),
            stretches == size_views(sizes@),
            flow_len(all) <= usize::MAX,
            sizes@.len() == items@.len(),
            item_start == offset(all, ix as int),
            out@ == plan_of_first(all, stretches, *line, ix as int),
    {
        proof {
            lemma_offset_step(all, ix as int);
            lemma_offset_monotone(all, ix + 1, all.len() as int);
            assert(all[ix as int] == items@[ix as int]@);
        }
        let item_end: usize = item_start + items[ix].len();
        let ghost before = out@;
        if item_end > line.start && item_start < line.end {
            match &items[ix] {
                MeasureItem::Text { .. } => {
                    let local_start: usize = if line.start < item_start {
                        0
                    } else {
                        line.start - item_start
                    };
                    let local_end: usize = if line.end < item_end {
                        line.end - item_start
                    } else {
                        item_end - item_start
                    };
                    let ghost range = local_range(all, ix as int, *line);
                    let of_item = &sizes[ix];
                    assert(before + text_plan(ix, of_item@.take(0), range) =~= before);
                    for at in 0..of_item.len()
                        invariant
                            local_start == range.start,
                            local_end == range.end,
                            out@ == before + text_plan(ix, of_item@.take(at as int), range),
                    {
                        assert(of_item@.take(at + 1).drop_last() =~= of_item@.take(at as int));
                        let stretch = &of_item[at].0;
                        let start: usize = if local_start < stretch.start {
                            stretch.start
                        } else {
                            local_start
                        };
                        let end: usize = if stretch.end < local_end {
                            stretch.end
                        } else {
                            local_end
                        };
                        if start < end {
                            out.push(
                                PlannedFragment::Text {
                                    item_ix: ix,
                                    start,
                                    end,
                                    scale: of_item[at].1,
                                },
                            );
                        }
                    }
                    assert(of_item@.take(of_item@.len() as int) =~= of_item@);
                },
                MeasureItem::Image { .. } | MeasureItem::Object { .. } => {
                    out.push(PlannedFragment::Atom { item_ix: ix });
                },
            }
        }
        assert(out@ =~= before + item_plan(all, stretches, *line, ix as int));
        item_start = item_end;
    }
    out
}

/// What a fragment of a line is.
pub enum LineFragmentKind<K: Kit> {
    Object(MeasuredInlineObject<K>),
    Text {
        font_size: K::Num,
        text: String,
        links: Links<K>,
        highlights: Highlights<K>,
        /// The box of a code span, relative to the fragment.
        code_background: Option<(Bounds<K::Num>, K::Color)>,
    },
    Image,
}

/// A measured fragment of a line.
pub struct LineFragmentLayout<K: Kit> {
    pub item_ix: usize,
    pub kind: LineFragmentKind<K>,
    pub size: Size<K::Num>,
    pub source_range: Range<usize>,
    pub baseline: K::Num,
}

/// What a fragment of a line is, in mathematical terms.
pub enum KindView<K: Kit> {
    Object(MeasuredInlineObject<K>),
    Text {
        font_size: K::Num,
        text: Seq<char>,
        links: Seq<(Range<usize>, Arc<K::Link>)>,
        highlights: Seq<(Range<usize>, InlineHighlight<K>)>,
        code_background: Option<(Bounds<K::Num>, K::Color)>,
    },
    Image,
}

/// A measured fragment of a line, in mathematical terms.
pub struct FragmentView<K: Kit> {
    pub item_ix: usize,
    pub kind: KindView<K>,
    pub size: Size<K::Num>,
    pub source_range: Range<usize>,
    pub baseline: K::Num,
}

impl<K: Kit> View for LineFragmentKind<K> {
    type V = KindView<K>;

    open spec fn view(&self) -> KindView<K> {
        match *self {
            LineFragmentKind::Object(object) => KindView::Object(object),
            LineFragmentKind::Text {
                font_size,
                text,
                links,
                highlights,
                code_background,
            } => KindView::Text {
                font_size,
                text: text@,
                links: links@,
                highlights: highlights@,
                code_background,
            },
            LineFragmentKind::Image => KindView::Image,
        }
    }
}

impl<K: Kit> View for LineFragmentLayout<K> {
    type V = FragmentView<K>;

    open spec fn view(&self) -> FragmentView<K> {
        FragmentView {
            item_ix: self.item_ix,
            kind: self.kind@,
            size: self.size,
            source_range: self.source_range,
            baseline: self.baseline,
        }
    }
}

/// The views of a list of fragments.
pub open spec fn fragment_views<K: Kit>(fragments: Seq<LineFragmentLayout<K>>) -> Seq<
    FragmentView<K>,
> {
    fragments.map_values(|fragment: LineFragmentLayout<K>| fragment@)
}

/// Where the baseline runs in a line box of the given height around a shaped
/// text: the text stands in the middle of its box.
pub open spec fn centered_baseline<N: Number>(shaped: ShapedLine<N>, height: N) -> N {
    height.spec_minus(shaped.ascent).spec_minus(shaped.descent).spec_over(
        N::spec_ratio(2, 1),
    ).spec_plus(shaped.ascent)
}

/// How high the line box of a shaped text is before it is snapped to the
/// window's pixels: as requested, or as the text needs it.
pub open spec fn needed_height<N: Number>(shaped: ShapedLine<N>, requested: N) -> N {
    requested.spec_larger(shaped.ascent.spec_plus(shaped.descent))
}

/// Where the baseline runs in a line box of the given height around a shaped
/// text.
pub fn baseline_in_box<N: Number>(shaped_line: &ShapedLine<N>, height: N) -> (r: N)
    ensures
        r == centered_baseline(*shaped_line, height),
{
    height.minus(shaped_line.ascent).minus(shaped_line.descent).over(N::ratio(2, 1)).plus(
        shaped_line.ascent,
    )
}

/// The line box and the baseline of a shaped text.
pub fn shaped_line_height_and_baseline<K: Kit, B: Backend<K>>(
    shaped_line: &ShapedLine<K::Num>,
    requested_line_height: K::Num,
    backend: &B,
) -> (r: (K::Num, K::Num))
    ensures
        call_ensures(
            B::pixel_snap,
            (backend, needed_height(*shaped_line, requested_line_height)),
            r.0,
        ),
        r.1 == centered_baseline(*shaped_line, r.0),
{
    let height: K::Num = backend.pixel_snap(
        requested_line_height.larger(shaped_line.ascent.plus(shaped_line.descent)),
    );
    (height, baseline_in_box(shaped_line, height))
}

/// Whether a highlight marks code.
pub open spec fn is_code<K: Kit>(highlights: Seq<(Range<usize>, InlineHighlight<K>)>) -> bool {
    exists|i: int|
        0 <= i < highlights.len() && (#[trigger] highlights[i]).1.font_size_scale is Some
}

/// Tells whether a highlight marks code.
pub fn has_code<K: Kit>(highlights: &Highlights<K>) -> (r: bool)
    ensures
        r == is_code(highlights@),
{
    for i in 0..highlights.len()
        invariant
            forall|j: int| 0 <= j < i ==> (#[trigger] highlights@[j]).1.font_size_scale is None,
    {
        if highlights[i].1.font_size_scale.is_some() {
            assert(highlights@[i as int].1.font_size_scale is Some);
            return true;
        }
    }
    false
}

/// The tallest of the given heights.
pub open spec fn tallest<N: Number>(heights: Seq<N>) -> N
    decreases heights.len(),
{
    if heights.len() == 0 {
        N::spec_zero()
    } else {
        tallest(heights.drop_last()).spec_larger(heights.last())
    }
}

/// The first background among the given highlights.
pub open spec fn first_background<K: Kit>(
    highlights: Seq<(Range<usize>, InlineHighlight<K>)>,
) -> Option<K::Color>
    decreases highlights.len(),
{
    if highlights.len() == 0 {
        None
    } else if highlights[0].1.background_color is Some {
        highlights[0].1.background_color
    } else {
        first_background(highlights.drop_first())
    }
}

/// The given highlights without their backgrounds.
pub open spec fn without_backgrounds<K: Kit>(
    highlights: Seq<(Range<usize>, InlineHighlight<K>)>,
) -> Seq<(Range<usize>, InlineHighlight<K>)> {
    highlights.map_values(
        |mark: (Range<usize>, InlineHighlight<K>)| (mark.0, mark.1.without_background()),
    )
}

/// The box behind a code span, relative to its fragment: around the capital
/// height of its text, with the room for descenders shared between above and
/// below.
pub open spec fn code_box<N: Number>(
    cap_heights: Seq<N>,
    descent: N,
    font_size: N,
    width: N,
    baseline: N,
) -> Bounds<N> {
    let cap_height = tallest(cap_heights);
    let room = font_size.spec_times(N::spec_ratio(1, 8)).spec_plus(
        descent.spec_over(N::spec_ratio(2, 1)),
    );
    Bounds {
        origin: Point {
            x: N::spec_zero(),
            y: baseline.spec_minus(cap_height).spec_minus(room),
        },
        size: Size {
            width,
            height: cap_height.spec_plus(room.spec_times(N::spec_ratio(2, 1))),
        },
    }
}

/// The box behind a code span and its color. The color is taken out of
/// `highlights`, so that the text does not paint it a second time over the
/// whole height of the line.
pub fn code_background<K: Kit>(
    cap_heights: &[K::Num],
    descent: K::Num,
    font_size: K::Num,
    highlights: &mut Highlights<K>,
    fragment_size: Size<K::Num>,
    baseline: K::Num,
) -> (r: Option<(Bounds<K::Num>, K::Color)>)
    ensures
        final(highlights)@ == without_backgrounds(old(highlights)@),
        r == (match first_background(old(highlights)@) {
            Some(color) => Some(
                (code_box(cap_heights@, descent, font_size, fragment_size.width, baseline), color),
            ),
            None => None,
        }),
{
    let mut cap_height: K::Num = K::Num::zero();
    for i in 0..cap_heights.len()
        invariant
            cap_height == tallest(cap_heights@.take(i as int)),
    {
        assert(cap_heights@.take(i + 1).drop_last() =~= cap_heights@.take(i as int));
        cap_height = cap_height.larger(cap_heights[i]);
    }
    assert(cap_heights@.take(cap_heights@.len() as int) =~= cap_heights@);
    let two: K::Num = K::Num::ratio(2, 1);
    let room: K::Num = font_size.times(K::Num::ratio(1, 8)).plus(descent.over(two));
    let ghost given = highlights@;
    let mut color: Option<K::Color> = None;
    let mut kept: Highlights<K> = Vec::new();
    assert(given.skip(0) =~= given);
    for i in 0..highlights.len()
        invariant
            highlights@ == given,
            kept@.len() == i,
            forall|j: int|
                #![trigger kept@[j]]
                0 <= j < i ==> kept@[j] == (given[j].0, given[j].1.without_background()),
            first_background(given) == match color {
                Some(color) => Some(color),
                None => first_background(given.skip(i as int)),
            },
    {
        assert(given.skip(i as int).drop_first() =~= given.skip(i + 1));
        let mark = &highlights[i];
        if color.is_none() {
            color = mark.1.background_color;
        }
        let mut plain = mark.1.copied();
        plain.background_color = None;
        kept.push((mark.0.start..mark.0.end, plain));
    }
    assert(kept@ =~= without_backgrounds(given));
    *highlights = kept;
    match color {
        Some(color) => Some(
            (
                Bounds {
                    origin: Point {
                        x: K::Num::zero(),
                        y: baseline.minus(cap_height).minus(room),
                    },
                    size: Size {
                        width: fragment_size.width,
                        height: cap_height.plus(room.times(two)),
                    },
                },
                color,
            ),
        ),
        None => None,
    }
}

/// What the window answers about a stretch of text.
pub struct TextAnswer<N> {
    pub shaped: ShapedLine<N>,
    pub height: N,
    pub cap_heights: Seq<N>,
}

/// The size of a stretch of text with the given factor on it.
pub open spec fn stretch_size<K: Kit>(typography: InlineFlowTypography<K>, scale: K::Num) -> K::Num {
    typography.spec_font_pixels().spec_times(scale)
}

/// Whether the window may answer `shaped` for the bytes `range` of `text`.
pub open spec fn is_shaped<K: Kit, B: Backend<K>>(
    backend: &B,
    typography: &InlineFlowTypography<K>,
    text: Seq<char>,
    range: Range<usize>,
    font_size: K::Num,
    highlights: Seq<(Range<usize>, InlineHighlight<K>)>,
    shaped: ShapedLine<K::Num>,
) -> bool {
    exists|asked: &str, marks: Highlights<K>|
        asked@ == text && marks@ == highlights && #[trigger] call_ensures(
            B::shape_line,
            (backend, asked, range, &typography.text_style, font_size, &marks),
            shaped,
        )
}

/// Whether the window may answer `heights` for the capital heights of `len`
/// bytes of text under `highlights`.
pub open spec fn is_cap_heights<K: Kit, B: Backend<K>>(
    backend: &B,
    typography: &InlineFlowTypography<K>,
    len: usize,
    font_size: K::Num,
    highlights: Seq<(Range<usize>, InlineHighlight<K>)>,
    heights: Seq<K::Num>,
) -> bool {
    exists|marks: Highlights<K>, answer: Vec<K::Num>|
        marks@ == highlights && answer@ == heights && #[trigger] call_ensures(
            B::cap_heights,
            (backend, len, &typography.text_style, font_size, &marks),
            answer,
        )
}

/// Whether the window may answer `answer` about the bytes `range` of `text`.
/// Capital heights are asked for code only.
pub open spec fn is_text_answer<K: Kit, B: Backend<K>>(
    backend: &B,
    typography: &InlineFlowTypography<K>,
    line_height: K::Num,
    text: Seq<char>,
    highlights: Seq<(Range<usize>, InlineHighlight<K>)>,
    range: Range<usize>,
    scale: K::Num,
    answer: TextAnswer<K::Num>,
) -> bool {
    let marks = clipped(highlights, range.start, range.end);
    let font_size = stretch_size(*typography, scale);
    &&& is_shaped(backend, typography, text, range, font_size, marks, answer.shaped)
    &&& call_ensures(
        B::pixel_snap,
        (backend, needed_height(answer.shaped, line_height)),
        answer.height,
    )
    &&& is_code(marks) ==> is_cap_heights(
        backend,
        typography,
        (range.end - range.start) as usize,
        font_size,
        marks,
        answer.cap_heights,
    )
}

/// The fragment for the bytes `range` of a text, which are `text`, under the
/// given marks, which are measured from the start of `range`, given what the window answered about
/// them. Code is padded at both its ends and has its background taken out of
/// its highlights.
pub open spec fn marked_fragment<K: Kit>(
    item_ix: usize,
    text: Seq<char>,
    links: Seq<(Range<usize>, Arc<K::Link>)>,
    marks: Seq<(Range<usize>, InlineHighlight<K>)>,
    range: Range<usize>,
    font_size: K::Num,
    answer: TextAnswer<K::Num>,
) -> FragmentView<K> {
    let baseline = centered_baseline(answer.shaped, answer.height);
    let padding = if is_code(marks) {
        code_padding::<K::Num>().spec_times(K::Num::spec_ratio(2, 1))
    } else {
        K::Num::spec_zero()
    };
    let width = answer.shaped.width.spec_plus(padding);
    FragmentView {
        item_ix,
        kind: KindView::Text {
            font_size,
            text,
            links,
            highlights: if is_code(marks) {
                without_backgrounds(marks)
            } else {
                marks
            },
            code_background: if is_code(marks) {
                match first_background(marks) {
                    Some(color) => Some(
                        (
                            code_box(
                                answer.cap_heights,
                                answer.shaped.descent,
                                font_size,
                                width,
                                baseline,
                            ),
                            color,
                        ),
                    ),
                    None => None,
                }
            } else {
                None
            },
        },
        size: Size { width, height: answer.height },
        source_range: range,
        baseline,
    }
}

/// The fragment for the bytes `range` of a text, given what the window
/// answered about them.
pub open spec fn text_fragment<K: Kit>(
    typography: InlineFlowTypography<K>,
    item_ix: usize,
    text: Seq<char>,
    links: Seq<(Range<usize>, Arc<K::Link>)>,
    highlights: Seq<(Range<usize>, InlineHighlight<K>)>,
    range: Range<usize>,
    scale: K::Num,
    answer: TextAnswer<K::Num>,
) -> FragmentView<K> {
    marked_fragment(
        item_ix,
        chars_in(text, range.start as int, range.end as int),
        clipped(links, range.start, range.end),
        clipped(highlights, range.start, range.end),
        range,
        stretch_size(typography, scale),
        answer,
    )
}

/// Whether `out` is the fragment for the bytes `range` of `text`, for answers
/// that the window may give.
pub open spec fn is_text_fragment<K: Kit, B: Backend<K>>(
    backend: &B,
    typography: &InlineFlowTypography<K>,
    line_height: K::Num,
    item_ix: usize,
    text: Seq<char>,
    links: Seq<(Range<usize>, Arc<K::Link>)>,
    highlights: Seq<(Range<usize>, InlineHighlight<K>)>,
    range: Range<usize>,
    scale: K::Num,
    out: FragmentView<K>,
) -> bool {
    exists|answer: TextAnswer<K::Num>| #[trigger]
        is_text_answer(
            backend,
            typography,
            line_height,
            text,
            highlights,
            range,
            scale,
            answer,
        ) && out == text_fragment(
            *typography,
            item_ix,
            text,
            links,
            highlights,
            range,
            scale,
            answer,
        )
}

fn mark_highlight<K: Kit>(range: Range<usize>, highlight: &InlineHighlight<K>) -> (r: (
    Range<usize>,
    InlineHighlight<K>,
))
    ensures
        r == (range, *highlight),
{
    (range, highlight.copied())
}

fn mark_link<L>(range: Range<usize>, link: &Arc<L>) -> (r: (Range<usize>, Arc<L>))
    ensures
        r == (range, *link),
{
    (range, link.clone())
}

/// The fragment for the bytes `range` of a text, which are `text`, from what was
/// measured of it: its shaped line, the height of its box and the capital heights of its fonts.
pub fn fragment_of_text<K: Kit>(
    item_ix: usize,
    text: String,
    links: Links<K>,
    marks: Highlights<K>,
    range: Range<usize>,
    font_size: K::Num,
    shaped: ShapedLine<K::Num>,
    height: K::Num,
    cap_heights: &[K::Num],
) -> (r: LineFragmentLayout<K>)
    ensures
        r@ == marked_fragment(
            item_ix,
            text@,
            links@,
            marks@,
            range,
            font_size,
            (TextAnswer { shaped, height, cap_heights: cap_heights@ }),
        ),
{
    let mut highlights = marks;
    let code: bool = has_code::<K>(&highlights);
    let padding: K::Num = if code {
        K::Num::ratio(2, 1).times(K::Num::ratio(2, 1))
    } else {
        K::Num::zero()
    };
    let size = Size { width: shaped.width.plus(padding), height };
    let baseline: K::Num = baseline_in_box(&shaped, height);
    let background: Option<(Bounds<K::Num>, K::Color)> = if code {
        code_background::<K>(
            cap_heights,
            shaped.descent,
            font_size,
            &mut highlights,
            size,
            baseline,
        )
    } else {
        None
    };
    LineFragmentLayout {
        item_ix,
        kind: LineFragmentKind::Text {
            font_size,
            text,
            links,
            highlights,
            code_background: background,
        },
        size,
        source_range: range,
        baseline,
    }
}

/// Measures the bytes `range` of a text.
pub fn measure_text<K: Kit, B: Backend<K>>(
    item_ix: usize,
    text: &str,
    links: &Links<K>,
    highlights: &Highlights<K>,
    range: &Range<usize>,
    scale: K::Num,
    typography: &InlineFlowTypography<K>,
    line_height: K::Num,
    backend: &B,
) -> (r: LineFragmentLayout<K>)
    requires
        range.start <= range.end,
    ensures
        is_text_fragment(
            backend,
            typography,
            line_height,
            item_ix,
            text@,
            links@,
            highlights@,
            *range,
            scale,
            r@,
        ),
{
    let (start, end): (usize, usize) = (range.start, range.end);
    let marks: Highlights<K> = slice_ranges(
        highlights.as_slice(),
        start,
        end,
        mark_highlight::<K>,
    );
    let links_inside: Links<K> = slice_ranges(
        links.as_slice(),
        start,
        end,
        mark_link::<K::Link>,
    );
    assert(marks@ =~= clipped(highlights@, start, end));
    assert(links_inside@ =~= clipped(links@, start, end));
    let font_size: K::Num = typography.font_pixels().times(scale);
    let shaped: ShapedLine<K::Num> = backend.shape_line(
        text,
        start..end,
        &typography.text_style,
        font_size,
        &marks,
    );
    assert(is_shaped(backend, typography, text@, *range, font_size, marks@, shaped));
    let (height, _) = shaped_line_height_and_baseline::<K, B>(&shaped, line_height, backend);
    let cap_heights: Vec<K::Num> = if has_code::<K>(&marks) {
        backend.cap_heights(end - start, &typography.text_style, font_size, &marks)
    } else {
        Vec::new()
    };
    proof {
        let answer = TextAnswer { shaped, height, cap_heights: cap_heights@ };
        if is_code(marks@) {
            assert(is_cap_heights(
                backend,
                typography,
                (end - start) as usize,
                font_size,
                marks@,
                cap_heights@,
            ));
        }
        assert(is_text_answer(
            backend,
            typography,
            line_height,
            text@,
            highlights@,
            *range,
            scale,
            answer,
        ));
    }
    fragment_of_text::<K>(
        item_ix,
        text_in(text, start, end),
        links_inside,
        marks,
        start..end,
        font_size,
        shaped,
        height,
        cap_heights.as_slice(),
    )
}

/// Where the baseline runs in an image: so that its middle stands where the
/// middle of the line is, but inside the image.
pub open spec fn image_baseline<N: Number>(height: N, body_baseline: N, line_height: N) -> N {
    let two = N::spec_ratio(2, 1);
    height.spec_over(two).spec_plus(body_baseline).spec_minus(line_height.spec_over(two)).spec_larger(
        N::spec_zero(),
    ).spec_smaller(height)
}

/// Where the baseline runs in an image.
pub fn baseline_in_image<N: Number>(height: N, body_baseline: N, line_height: N) -> (r: N)
    ensures
        r == image_baseline(height, body_baseline, line_height),
{
    let two: N = N::ratio(2, 1);
    height.over(two).plus(body_baseline).minus(line_height.over(two)).larger(N::zero()).smaller(
        height,
    )
}

/// The fragment for an object.
pub open spec fn object_fragment<K: Kit>(
    item_ix: usize,
    object: MeasuredInlineObject<K>,
) -> FragmentView<K> {
    FragmentView {
        item_ix,
        kind: KindView::Object(object),
        size: object.metrics.size,
        source_range: Range { start: 0, end: 1 },
        baseline: object.metrics.baseline,
    }
}

/// The fragment for an image.
pub open spec fn image_fragment<K: Kit>(
    item_ix: usize,
    size: Size<K::Num>,
    body_baseline: K::Num,
    line_height: K::Num,
) -> FragmentView<K> {
    FragmentView {
        item_ix,
        kind: KindView::Image,
        size,
        source_range: Range { start: 0, end: 1 },
        baseline: image_baseline(size.height, body_baseline, line_height),
    }
}

/// Whether `out` is a fragment that a planned one may be measured to.
pub open spec fn is_fragment<K: Kit, B: Backend<K>>(
    backend: &B,
    typography: &InlineFlowTypography<K>,
    line_height: K::Num,
    body_baseline: K::Num,
    items: Seq<ItemView<K>>,
    image_sizes: Seq<Option<Size<K::Num>>>,
    objects: Seq<Option<MeasuredInlineObject<K>>>,
    planned: PlannedFragment<K::Num>,
    out: FragmentView<K>,
) -> bool {
    match planned {
        PlannedFragment::Text { item_ix, start, end, scale } => {
            let range = Range { start, end };
            match items[item_ix as int] {
                ItemView::Text { text, links, highlights } => is_text_fragment(
                    backend,
                    typography,
                    line_height,
                    item_ix,
                    text,
                    links,
                    highlights,
                    range,
                    scale,
                    out,
                ),
                _ => false,
            }
        },
        PlannedFragment::Atom { item_ix } => match items[item_ix as int] {
            ItemView::Object { .. } => out == object_fragment(item_ix, objects[item_ix as int]->0),
            ItemView::Image { .. } => out == image_fragment::<K>(
                item_ix,
                image_sizes[item_ix as int]->0,
                body_baseline,
                line_height,
            ),
            ItemView::Text { .. } => false,
        },
    }
}

/// Whether `out` are fragments that the planned ones may be measured to.
pub open spec fn is_fragments<K: Kit, B: Backend<K>>(
    backend: &B,
    typography: &InlineFlowTypography<K>,
    line_height: K::Num,
    body_baseline: K::Num,
    items: Seq<ItemView<K>>,
    image_sizes: Seq<Option<Size<K::Num>>>,
    objects: Seq<Option<MeasuredInlineObject<K>>>,
    plan: Seq<PlannedFragment<K::Num>>,
    out: Seq<FragmentView<K>>,
) -> bool {
    &&& out.len() == plan.len()
    &&& forall|i: int|
        #![trigger out[i]]
        0 <= i < out.len() ==> is_fragment(
            backend,
            typography,
            line_height,
            body_baseline,
            items,
            image_sizes,
            objects,
            plan[i],
            out[i],
        )
}

proof fn lemma_text_plan<N>(item_ix: usize, sizes: Seq<SizeRange<N>>, range: Range<usize>)
    ensures
        forall|i: int|
            #![trigger text_plan(item_ix, sizes, range)[i]]
            0 <= i < text_plan(item_ix, sizes, range).len() ==> match text_plan(
                item_ix,
                sizes,
                range,
            )[i] {
                PlannedFragment::Text { item_ix: ix, start, end, .. } => ix == item_ix
                    && range.start <= start < end <= range.end,
                PlannedFragment::Atom { .. } => false,
            },
    decreases sizes.len(),
{
    if sizes.len() > 0 {
        lemma_text_plan(item_ix, sizes.drop_last(), range);
    }
}

/// Each planned fragment is of an item of its kind, and none is empty.
pub proof fn lemma_plan_of_first<K: Kit>(
    items: Seq<ItemView<K>>,
    sizes: Seq<Seq<SizeRange<K::Num>>>,
    line: Range<usize>,
    n: int,
)
    requires
        0 <= n <= items.len() <= usize::MAX,
    ensures
        forall|i: int|
            #![trigger plan_of_first(items, sizes, line, n)[i]]
            0 <= i < plan_of_first(items, sizes, line, n).len() ==> match plan_of_first(
                items,
                sizes,
                line,
                n,
            )[i] {
                PlannedFragment::Text { item_ix, start, end, .. } => item_ix < n
                    && items[item_ix as int] is Text && start < end,
                PlannedFragment::Atom { item_ix } => item_ix < n && !(
                items[item_ix as int] is Text),
            },
    decreases n,
{
    if n > 0 {
        lemma_plan_of_first(items, sizes, line, n - 1);
        let before = plan_of_first(items, sizes, line, n - 1);
        let all = plan_of_first(items, sizes, line, n);
        lemma_text_plan((n - 1) as usize, sizes[n - 1], local_range(items, n - 1, line));
        assert forall|i: int| #![trigger all[i]] 0 <= i < all.len() implies match all[i] {
            PlannedFragment::Text { item_ix, start, end, .. } => item_ix < n
                && items[item_ix as int] is Text && start < end,
            PlannedFragment::Atom { item_ix } => item_ix < n && !(items[item_ix as int] is Text),
        } by {
            if i < before.len() {
                assert(all[i] == before[i]);
            } else {
                assert(all[i] == item_plan(items, sizes, line, n - 1)[i - before.len()]);
            }
        }
    }
}

/// Measures the fragments of a line.
pub fn measure_line<K: Kit, B: Backend<K>>(
    items: &[MeasureItem<K>],
    image_sizes: &[Option<Size<K::Num>>],
    objects: &[Option<MeasuredInlineObject<K>>],
    sizes: &[Vec<SizeRange<K::Num>>],
    line: &Range<usize>,
    typography: &InlineFlowTypography<K>,
    line_height: K::Num,
    body_baseline: K::Num,
    backend: &B,
) -> (r: Vec<LineFragmentLayout<K>>)
    requires
        flow_len(views(items@)) <= usize::MAX,
        sizes@.len() == items@.len(),
        atoms_measured(views(items@), image_sizes@, objects@),
    ensures
        is_fragments(
            backend,
            typography,
            line_height,
            body_baseline,
            views(items@),
            image_sizes@,
            objects@,
            line_plan(views(items@), size_views(sizes@), *line),
            fragment_views(r@),
        ),
{
    let ghost all = views(items@);
    let plan = plan_line(items, sizes, line);
    let mut out: Vec<LineFragmentLayout<K>> = Vec::new();
    proof {
        assert(items.len() == items@.len());
        lemma_plan_of_first(all, size_views(sizes@), *line, all.len() as int);
    }
    for ix in 0..plan.len()
        invariant
            all == views(items@),
            atoms_measured(all, image_sizes@, objects@),
            forall|i: int|
                #![trigger plan@[i]]
                0 <= i < plan@.len() ==> match plan@[i] {
                    PlannedFragment::Text { item_ix, start, end, .. } => item_ix < all.len()
                        && all[item_ix as int] is Text && start < end,
                    PlannedFragment::Atom { item_ix } => item_ix < all.len() && !(
                    all[item_ix as int] is Text),
                },
            is_fragments(
                backend,
                typography,
                line_height,
                body_baseline,
                all,
                image_sizes@,
                objects@,
                plan@.take(ix as int),
                fragment_views(out@),
            ),
    {
        let ghost before = fragment_views(out@);
        let ghost planned = plan@[ix as int];
        let fragment: LineFragmentLayout<K> = match &plan[ix] {
            PlannedFragment::Text { item_ix, start, end, scale } => {
                assert(all[*item_ix as int] == items@[*item_ix as int]@);
                match &items[*item_ix] {
                    MeasureItem::Text { text, links, highlights } => {
                        let range: Range<usize> = *start..*end;
                        measure_text::<K, B>(
                            *item_ix,
                            text.as_str(),
                            links,
                            highlights,
                            &range,
                            *scale,
                            typography,
                            line_height,
                            backend,
                        )
                    },
                    MeasureItem::Image { .. } | MeasureItem::Object { .. } => {
                        assert(false);
                        return out;
                    },
                }
            },
            PlannedFragment::Atom { item_ix } => {
                assert(all[*item_ix as int] == items@[*item_ix as int]@);
                match &items[*item_ix] {
                    MeasureItem::Object { .. } => {
                        let object = objects[*item_ix].as_ref().unwrap();
                        LineFragmentLayout {
                            item_ix: *item_ix,
                            kind: LineFragmentKind::Object(object.copied()),
                            size: object.metrics.size,
                            source_range: 0..IMAGE_LEN,
                            baseline: object.metrics.baseline,
                        }
                    },
                    MeasureItem::Image { .. } => {
                        let size = image_sizes[*item_ix].unwrap();
                        LineFragmentLayout {
                            item_ix: *item_ix,
                            kind: LineFragmentKind::Image,
                            size,
                            source_range: 0..IMAGE_LEN,
                            baseline: baseline_in_image(size.height, body_baseline, line_height),
                        }
                    },
                    MeasureItem::Text { .. } => {
                        assert(false);
                        return out;
                    },
                }
            },
        };
        proof {
            assert(is_fragment(
                backend,
                typography,
                line_height,
                body_baseline,
                all,
                image_sizes@,
                objects@,
                planned,
                fragment@,
            ));
        }
        out.push(fragment);
        assert(fragment_views(out@) =~= before.push(fragment@));
    }
    assert(plan@.take(plan@.len() as int) =~= plan@);
    out
}

} // verus!
