//! What a layout shows of its flow.

use std::ops::Range;
use std::sync::Arc;

use vstd::prelude::*;
use vstd::utf8::encode_utf8;

use crate::backend::{Backend, InlineFlowTypography, MeasuredInlineObject, WrapFragment};
use crate::content::{
    breaks_at, content, flow_content, flow_len, is_hard_lines, lemma_content_at, lemma_offset_ends,
    lemma_offset_monotone, lemma_offset_step, offset, text_units, unbroken, Unit, NEWLINE,
};
use crate::element::shown_item;
use crate::fragment::{
    is_fragment, is_fragments, item_plan, lemma_plan_of_first, line_plan, plan_of_first, text_plan,
    PlannedFragment, SizeRange,
};
use crate::frame::KeyView;
use crate::geometry::Size;
use crate::item::ItemView;
use crate::kit::Kit;
use crate::layout::{
    is_answers, is_layout, is_line, is_lines, is_sizes, layout_of_lines, placed_line, placed_lines,
    top_after, FlowAnswers, LayoutView, LineView, PositionedView,
};
use crate::marks::Highlights;
use crate::text::{chars_in, lemma_slice_bytes, on_char};
use crate::wrap::{
    in_order, is_line_ranges, is_wrapped_line, is_wrapped_lines, law_cut_covers_line, local_range,
    pieces, reaches, tiles,
};

verus! {

/// The units that a planned fragment shows.
pub open spec fn planned_units<K: Kit>(
    items: Seq<ItemView<K>>,
    planned: PlannedFragment<K::Num>,
) -> Seq<Unit> {
    match planned {
        PlannedFragment::Text { item_ix, start, end, .. } => content(
            items[item_ix as int],
        ).subrange(start as int, end as int),
        PlannedFragment::Atom { .. } => seq![Unit::Atom],
    }
}

/// The units that a plan shows, fragment after fragment.
pub open spec fn plan_units<K: Kit>(
    items: Seq<ItemView<K>>,
    plan: Seq<PlannedFragment<K::Num>>,
) -> Seq<Unit>
    decreases plan.len(),
{
    if plan.len() == 0 {
        Seq::empty()
    } else {
        plan_units(items, plan.drop_last()) + planned_units(items, plan.last())
    }
}

proof fn lemma_plan_units_append<K: Kit>(
    items: Seq<ItemView<K>>,
    a: Seq<PlannedFragment<K::Num>>,
    b: Seq<PlannedFragment<K::Num>>,
)
    ensures
        plan_units(items, a + b) == plan_units(items, a) + plan_units(items, b),
    decreases b.len(),
{
    if b.len() == 0 {
        assert(a + b =~= a);
    } else {
        lemma_plan_units_append(items, a, b.drop_last());
        assert((a + b).drop_last() =~= a + b.drop_last());
        assert(plan_units(items, a + b) =~= plan_units(items, a) + plan_units(items, b));
    }
}

/// The ranges of stretches of one size.
pub open spec fn stretches<N>(sizes: Seq<SizeRange<N>>) -> Seq<Range<usize>> {
    sizes.map_values(|size: SizeRange<N>| size.0)
}

/// Whether the stretches of one size of each text cover it one after the
/// other.
pub open spec fn sizes_cover<K: Kit>(
    items: Seq<ItemView<K>>,
    sizes: Seq<Seq<SizeRange<K::Num>>>,
) -> bool {
    forall|ix: int|
        #![trigger sizes[ix]]
        0 <= ix < items.len() && items[ix] is Text ==> tiles(
            stretches(sizes[ix]),
            0,
            items[ix].len() as int,
        )
}

/// `at` moved into `lo..=hi`.
pub open spec fn between(lo: int, at: int, hi: int) -> int {
    if at < lo {
        lo
    } else if at < hi {
        at
    } else {
        hi
    }
}

proof fn lemma_text_plan_units<K: Kit>(
    items: Seq<ItemView<K>>,
    ix: int,
    sizes: Seq<SizeRange<K::Num>>,
    range: Range<usize>,
    upto: int,
)
    requires
        0 <= ix < items.len() <= usize::MAX,
        range.start <= range.end <= content(items[ix]).len(),
        tiles(stretches(sizes), 0, upto),
    ensures
        plan_units(items, text_plan(ix as usize, sizes, range)) == content(items[ix]).subrange(
            range.start as int,
            between(range.start as int, upto, range.end as int),
        ),
    decreases sizes.len(),
{
    let units = content(items[ix]);
    let plan = text_plan(ix as usize, sizes, range);
    if sizes.len() == 0 {
        assert(units.subrange(range.start as int, range.start as int) =~= Seq::empty());
    } else {
        let before = sizes.drop_last();
        let ranges = stretches(sizes);
        assert(stretches(before) =~= ranges.drop_last());
        let from = ranges.last().start as int;
        assert(sizes.last().0 == ranges.last());
        assert(tiles(stretches(before), 0, from)) by {
            if before.len() > 0 {
                assert(ranges[before.len() - 1].end == ranges[before.len() as int].start);
                assert(stretches(before).last() == ranges[before.len() - 1]);
            }
        }
        lemma_text_plan_units(items, ix, before, range, from);
        let shown = text_plan(ix as usize, before, range);
        if plan.len() > shown.len() {
            assert(plan.drop_last() =~= shown);
        }
        assert(plan_units(items, plan) =~= units.subrange(
            range.start as int,
            between(range.start as int, upto, range.end as int),
        ));
    }
}

proof fn lemma_item_plan_units<K: Kit>(
    items: Seq<ItemView<K>>,
    sizes: Seq<Seq<SizeRange<K::Num>>>,
    line: Range<usize>,
    ix: int,
)
    requires
        0 <= ix < items.len() <= usize::MAX,
        flow_len(items) <= usize::MAX,
        sizes.len() == items.len(),
        sizes_cover(items, sizes),
        line.start <= line.end <= flow_len(items),
    ensures
        plan_units(items, item_plan(items, sizes, line, ix)) == flow_content(items).subrange(
            between(line.start as int, offset(items, ix), line.end as int),
            between(line.start as int, offset(items, ix + 1), line.end as int),
        ),
{
    let flow = flow_content(items);
    let (start, end) = (offset(items, ix), offset(items, ix + 1));
    let from = between(line.start as int, start, line.end as int);
    let to = between(line.start as int, end, line.end as int);
    let plan = item_plan(items, sizes, line, ix);
    lemma_content_at(items, ix);
    lemma_offset_step(items, ix);
    if !reaches(items, ix, line) {
        assert(flow.subrange(from, to) =~= Seq::empty());
    } else if items[ix] is Text {
        let range = local_range(items, ix, line);
        assert(sizes[ix] == sizes[ix]);
        lemma_text_plan_units(items, ix, sizes[ix], range, items[ix].len() as int);
        assert(flow.subrange(start, end).subrange(range.start as int, range.end as int)
            =~= flow.subrange(from, to));
    } else {
        reveal_with_fuel(plan_units, 2);
        assert(flow.subrange(from, to) =~= content(items[ix]));
        assert(plan_units(items, plan) =~= content(items[ix]));
    }
}

proof fn lemma_plan_of_first_units<K: Kit>(
    items: Seq<ItemView<K>>,
    sizes: Seq<Seq<SizeRange<K::Num>>>,
    line: Range<usize>,
    n: int,
)
    requires
        0 <= n <= items.len() <= usize::MAX,
        flow_len(items) <= usize::MAX,
        sizes.len() == items.len(),
        sizes_cover(items, sizes),
        line.start <= line.end <= flow_len(items),
    ensures
        plan_units(items, plan_of_first(items, sizes, line, n)) == flow_content(items).subrange(
            line.start as int,
            between(line.start as int, offset(items, n), line.end as int),
        ),
    decreases n,
{
    let flow = flow_content(items);
    if n == 0 {
        lemma_offset_ends(items);
        assert(flow.subrange(line.start as int, line.start as int) =~= Seq::empty());
    } else {
        lemma_plan_of_first_units(items, sizes, line, n - 1);
        lemma_item_plan_units(items, sizes, line, n - 1);
        lemma_plan_units_append(
            items,
            plan_of_first(items, sizes, line, n - 1),
            item_plan(items, sizes, line, n - 1),
        );
        lemma_offset_monotone(items, n - 1, n);
        assert(plan_units(items, plan_of_first(items, sizes, line, n)) =~= flow.subrange(
            line.start as int,
            between(line.start as int, offset(items, n), line.end as int),
        ));
    }
}

/// A line shows exactly its range of the flow: the fragments planned for it
/// are, one after the other, the units of that range, each once and in order.
pub proof fn law_line_shows_its_range<K: Kit>(
    items: Seq<ItemView<K>>,
    sizes: Seq<Seq<SizeRange<K::Num>>>,
    line: Range<usize>,
)
    requires
        items.len() <= usize::MAX,
        flow_len(items) <= usize::MAX,
        sizes.len() == items.len(),
        sizes_cover(items, sizes),
        line.start <= line.end <= flow_len(items),
    ensures
        plan_units(items, line_plan(items, sizes, line)) == flow_content(items).subrange(
            line.start as int,
            line.end as int,
        ),
{
    lemma_offset_ends(items);
    lemma_plan_of_first_units(items, sizes, line, items.len() as int);
}

/// The units that a placed fragment shows.
pub open spec fn positioned_units<K: Kit>(
    items: Seq<ItemView<K>>,
    fragment: PositionedView<K>,
) -> Seq<Unit> {
    match fragment {
        PositionedView::Text { item_ix, source_range, .. } => content(
            items[item_ix as int],
        ).subrange(source_range.start as int, source_range.end as int),
        _ => seq![Unit::Atom],
    }
}

/// The units that placed fragments show, one after the other.
pub open spec fn layout_units<K: Kit>(
    items: Seq<ItemView<K>>,
    fragments: Seq<PositionedView<K>>,
) -> Seq<Unit>
    decreases fragments.len(),
{
    if fragments.len() == 0 {
        Seq::empty()
    } else {
        layout_units(items, fragments.drop_last()) + positioned_units(items, fragments.last())
    }
}

proof fn lemma_layout_units_append<K: Kit>(
    items: Seq<ItemView<K>>,
    a: Seq<PositionedView<K>>,
    b: Seq<PositionedView<K>>,
)
    ensures
        layout_units(items, a + b) == layout_units(items, a) + layout_units(items, b),
    decreases b.len(),
{
    if b.len() == 0 {
        assert(a + b =~= a);
    } else {
        lemma_layout_units_append(items, a, b.drop_last());
        assert((a + b).drop_last() =~= a + b.drop_last());
        assert(layout_units(items, a + b) =~= layout_units(items, a) + layout_units(items, b));
    }
}

/// Measuring and placing a plan changes nothing of what it shows.
proof fn lemma_placed_line_units<K: Kit, B: Backend<K>>(
    backend: &B,
    typography: &InlineFlowTypography<K>,
    line_height: K::Num,
    items: Seq<ItemView<K>>,
    image_sizes: Seq<Option<Size<K::Num>>>,
    objects: Seq<Option<MeasuredInlineObject<K>>>,
    plan: Seq<PlannedFragment<K::Num>>,
    line: LineView<K>,
    y: K::Num,
    n: int,
)
    requires
        0 <= n <= plan.len(),
        is_fragments(
            backend,
            typography,
            line_height,
            line.body_baseline,
            items,
            image_sizes,
            objects,
            plan,
            line.fragments,
        ),
    ensures
        layout_units(items, placed_line(line, y).take(n)) == plan_units(items, plan.take(n)),
    decreases n,
{
    let placed = placed_line(line, y);
    if n > 0 {
        lemma_placed_line_units(
            backend,
            typography,
            line_height,
            items,
            image_sizes,
            objects,
            plan,
            line,
            y,
            n - 1,
        );
        assert(placed.take(n).drop_last() =~= placed.take(n - 1));
        assert(plan.take(n).drop_last() =~= plan.take(n - 1));
        assert(is_fragment(
            backend,
            typography,
            line_height,
            line.body_baseline,
            items,
            image_sizes,
            objects,
            plan[n - 1],
            line.fragments[n - 1],
        ));
        assert(positioned_units(items, placed[n - 1]) == planned_units(items, plan[n - 1]));
    }
}

/// The units of the given ranges of a flow, one range after the other.
pub open spec fn ranges_units(flow: Seq<Unit>, ranges: Seq<Range<usize>>) -> Seq<Unit>
    decreases ranges.len(),
{
    if ranges.len() == 0 {
        Seq::empty()
    } else {
        ranges_units(flow, ranges.drop_last()) + flow.subrange(
            ranges.last().start as int,
            ranges.last().end as int,
        )
    }
}

proof fn lemma_ranges_units_append(flow: Seq<Unit>, a: Seq<Range<usize>>, b: Seq<Range<usize>>)
    ensures
        ranges_units(flow, a + b) == ranges_units(flow, a) + ranges_units(flow, b),
    decreases b.len(),
{
    if b.len() == 0 {
        assert(a + b =~= a);
    } else {
        lemma_ranges_units_append(flow, a, b.drop_last());
        assert((a + b).drop_last() =~= a + b.drop_last());
        assert(ranges_units(flow, a + b) =~= ranges_units(flow, a) + ranges_units(flow, b));
    }
}

/// Ranges that cover a stretch show that stretch.
proof fn lemma_tiles_units(flow: Seq<Unit>, ranges: Seq<Range<usize>>, start: int, end: int)
    requires
        tiles(ranges, start, end),
        0 <= start <= end <= flow.len(),
    ensures
        ranges_units(flow, ranges) == flow.subrange(start, end),
    decreases ranges.len(),
{
    if ranges.len() == 0 {
        assert(flow.subrange(start, end) =~= Seq::empty());
    } else {
        let before = ranges.drop_last();
        let last = ranges.last();
        assert(last == ranges[ranges.len() - 1]);
        lemma_tiles_prefix(ranges, start, end);
        lemma_tiles_units(flow, before, start, last.start as int);
        assert(ranges_units(flow, ranges) =~= flow.subrange(start, end));
    }
}

/// Ranges that cover a stretch cover, without the last one, what is before it.
pub proof fn lemma_tiles_prefix(ranges: Seq<Range<usize>>, start: int, end: int)
    requires
        ranges.len() > 0,
        tiles(ranges, start, end),
    ensures
        tiles(ranges.drop_last(), start, ranges.last().start as int),
        start <= ranges.last().start <= end,
    decreases ranges.len(),
{
    let before = ranges.drop_last();
    assert(ranges.last() == ranges[ranges.len() - 1]);
    if before.len() > 0 {
        assert(ranges[before.len() - 1].end == ranges[before.len() as int].start);
        assert(before.last() == ranges[before.len() - 1]);
        assert(tiles(before, start, ranges.last().start as int));
        lemma_tiles_prefix(before, start, ranges.last().start as int);
    }
}

/// A flow without its line feeds.
pub open spec fn without_breaks(flow: Seq<Unit>) -> Seq<Unit> {
    flow.filter(|unit: Unit| unit != Unit::Byte(NEWLINE))
}

proof fn lemma_unbroken_kept(flow: Seq<Unit>, start: int, end: int)
    requires
        0 <= start <= end <= flow.len(),
        unbroken(flow, start, end),
    ensures
        without_breaks(flow.subrange(start, end)) == flow.subrange(start, end),
    decreases end - start,
{
    reveal(Seq::filter);
    let part = flow.subrange(start, end);
    if start < end {
        lemma_unbroken_kept(flow, start, end - 1);
        assert(part.drop_last() =~= flow.subrange(start, end - 1));
        assert(!breaks_at(flow, end - 1));
        assert(part =~= part.drop_last().push(part.last()));
    }
}

/// Two stretches lose their line feeds one by one.
pub proof fn lemma_without_breaks_append(a: Seq<Unit>, b: Seq<Unit>)
    ensures
        without_breaks(a + b) == without_breaks(a) + without_breaks(b),
{
    Seq::filter_distributes_over_add(a, b, |unit: Unit| unit != Unit::Byte(NEWLINE));
}

/// A line feed and an unbroken stretch after it show that stretch.
proof fn lemma_feed_and_line(flow: Seq<Unit>, at: int, end: int)
    requires
        0 <= at < end <= flow.len(),
        breaks_at(flow, at),
        unbroken(flow, at + 1, end),
    ensures
        without_breaks(flow.take(end)) == without_breaks(flow.take(at)) + flow.subrange(
            at + 1,
            end,
        ),
{
    let feed = flow.subrange(at, at + 1);
    let line = flow.subrange(at + 1, end);
    assert(without_breaks(feed) =~= Seq::empty()) by {
        reveal(Seq::filter);
        assert(feed.drop_last() =~= Seq::empty());
        assert(feed.drop_last().filter(|unit: Unit| unit != Unit::Byte(NEWLINE)).len() == 0);
    }
    lemma_unbroken_kept(flow, at + 1, end);
    assert(flow.take(end) =~= (flow.take(at) + feed) + line);
    lemma_without_breaks_append(flow.take(at) + feed, line);
    lemma_without_breaks_append(flow.take(at), feed);
    assert(without_breaks(flow.take(at)) + without_breaks(feed) =~= without_breaks(flow.take(at)));
}

/// The first `n` hard lines show all that is before the end of the last of
/// them, without the line feeds.
proof fn lemma_hard_lines_units(flow: Seq<Unit>, lines: Seq<Range<usize>>, n: int)
    requires
        is_hard_lines(flow, lines),
        0 < n <= lines.len(),
    ensures
        ranges_units(flow, lines.take(n)) == without_breaks(flow.take(lines[n - 1].end as int)),
    decreases n,
{
    let (start, end) = (lines[n - 1].start as int, lines[n - 1].end as int);
    assert(lines.take(n).drop_last() =~= lines.take(n - 1));
    assert(lines.take(n).last() == lines[n - 1]);
    if n == 1 {
        lemma_unbroken_kept(flow, start, end);
        reveal_with_fuel(ranges_units, 2);
        assert(flow.take(end) =~= flow.subrange(start, end));
        assert(ranges_units(flow, lines.take(n)) =~= flow.subrange(start, end));
    } else {
        lemma_hard_lines_units(flow, lines, n - 1);
        assert(breaks_at(flow, lines[n - 2].end as int));
        lemma_feed_and_line(flow, lines[n - 2].end as int, end);
    }
}

/// Whether the window gives stretches of one size that cover each text.
pub open spec fn sizes_tile<K: Kit, B: Backend<K>>(backend: &B) -> bool {
    forall|len: usize, highlights: Highlights<K>, answer: Vec<SizeRange<K::Num>>| #[trigger]
        call_ensures(B::text_size_ranges, (backend, len, &highlights), answer) ==> tiles(
            stretches(answer@),
            0,
            len as int,
        )
}

/// Whether the window gives the breaks of a line in order.
pub open spec fn breaks_ordered<'a, K: Kit, B: Backend<K>>(backend: &B) -> bool {
    forall|
        fragments: Vec<WrapFragment<'a, K::Num>>,
        style: Arc<K::TextStyle>,
        font_size: K::Num,
        wrap_width: K::Num,
        breaks: Vec<usize>,
    | #[trigger]
        call_ensures(
            B::wrap_line,
            (backend, &fragments, &style, font_size, wrap_width),
            breaks,
        ) ==> in_order(breaks@)
}

proof fn lemma_wrapped_units<K: Kit, B: Backend<K>>(
    backend: &B,
    typography: &InlineFlowTypography<K>,
    items: Seq<ItemView<K>>,
    image_sizes: Seq<Option<Size<K::Num>>>,
    objects: Seq<Option<MeasuredInlineObject<K>>>,
    wrap_width: K::Num,
    lines: Seq<Range<usize>>,
    groups: Seq<Seq<Range<usize>>>,
    n: int,
)
    requires
        breaks_ordered::<K, B>(backend),
        is_hard_lines(flow_content(items), lines),
        is_wrapped_lines(
            backend,
            typography,
            items,
            image_sizes,
            objects,
            wrap_width,
            lines,
            groups,
        ),
        0 <= n <= lines.len(),
    ensures
        ranges_units(flow_content(items), groups.take(n).flatten()) == ranges_units(
            flow_content(items),
            lines.take(n),
        ),
        in_flow(flow_content(items), groups.take(n).flatten()),
    decreases n,
{
    let flow = flow_content(items);
    if n == 0 {
        assert(groups.take(0) =~= Seq::empty());
        assert(groups.take(0).flatten() =~= Seq::empty());
        assert(lines.take(0) =~= Seq::empty());
    } else {
        lemma_wrapped_units(
            backend,
            typography,
            items,
            image_sizes,
            objects,
            wrap_width,
            lines,
            groups,
            n - 1,
        );
        let (line, group) = (lines[n - 1], groups[n - 1]);
        assert(is_wrapped_line(
            backend,
            typography,
            items,
            image_sizes,
            objects,
            wrap_width,
            line,
            group,
        ));
        lemma_wrapped_line_tiles(
            backend,
            typography,
            items,
            image_sizes,
            objects,
            wrap_width,
            line,
            group,
        );
        lemma_tiles_units(flow, group, line.start as int, line.end as int);
        lemma_tiles_in(flow, group, line.start as int, line.end as int);
        assert(groups.take(n) =~= groups.take(n - 1).push(group));
        groups.take(n - 1).lemma_flatten_push(group);
        lemma_ranges_units_append(flow, groups.take(n - 1).flatten(), group);
        assert(lines.take(n).drop_last() =~= lines.take(n - 1));
    }
}

/// Whether the given ranges lie in a flow.
pub open spec fn in_flow(flow: Seq<Unit>, ranges: Seq<Range<usize>>) -> bool {
    forall|i: int|
        #![trigger ranges[i]]
        0 <= i < ranges.len() ==> ranges[i].start <= ranges[i].end <= flow.len()
}

proof fn lemma_tiles_in(flow: Seq<Unit>, ranges: Seq<Range<usize>>, start: int, end: int)
    requires
        tiles(ranges, start, end),
        0 <= start <= end <= flow.len(),
    ensures
        in_flow(flow, ranges),
    decreases ranges.len(),
{
    if ranges.len() > 0 {
        lemma_tiles_prefix(ranges, start, end);
        let before = ranges.drop_last();
        lemma_tiles_in(flow, before, start, ranges.last().start as int);
        assert forall|i: int| #![trigger ranges[i]] 0 <= i < ranges.len() implies ranges[i].start
            <= ranges[i].end <= flow.len() by {
            if i < before.len() {
                assert(ranges[i] == before[i]);
            }
        }
    }
}

/// A wrapped line is covered by what it is wrapped to.
pub proof fn lemma_wrapped_line_tiles<K: Kit, B: Backend<K>>(
    backend: &B,
    typography: &InlineFlowTypography<K>,
    items: Seq<ItemView<K>>,
    image_sizes: Seq<Option<Size<K::Num>>>,
    objects: Seq<Option<MeasuredInlineObject<K>>>,
    wrap_width: K::Num,
    line: Range<usize>,
    out: Seq<Range<usize>>,
)
    requires
        breaks_ordered::<K, B>(backend),
        line.start <= line.end,
        is_wrapped_line(
            backend,
            typography,
            items,
            image_sizes,
            objects,
            wrap_width,
            line,
            out,
        ),
    ensures
        tiles(out, line.start as int, line.end as int),
{
    let breaks = choose|breaks: Seq<usize>| in_order(breaks) && out == #[trigger] pieces(line, breaks);
    law_cut_covers_line(line, breaks);
}

/// The lines of a flow show it without its line feeds.
pub proof fn lemma_line_ranges_units<K: Kit, B: Backend<K>>(
    backend: &B,
    typography: &InlineFlowTypography<K>,
    items: Seq<ItemView<K>>,
    image_sizes: Seq<Option<Size<K::Num>>>,
    objects: Seq<Option<MeasuredInlineObject<K>>>,
    wrap_width: Option<K::Num>,
    ranges: Seq<Range<usize>>,
)
    requires
        wrap_width is Some ==> breaks_ordered::<K, B>(backend),
        is_line_ranges(
            backend,
            typography,
            items,
            image_sizes,
            objects,
            wrap_width,
            ranges,
        ),
    ensures
        ranges_units(flow_content(items), ranges) == without_breaks(flow_content(items)),
        in_flow(flow_content(items), ranges),
{
    let flow = flow_content(items);
    match wrap_width {
        None => {
            assert(ranges.take(ranges.len() as int) =~= ranges);
            lemma_hard_lines_units(flow, ranges, ranges.len() as int);
            assert(flow.take(flow.len() as int) =~= flow);
        },
        Some(width) => {
            let (lines, groups) = choose|
                lines: Seq<Range<usize>>,
                groups: Seq<Seq<Range<usize>>>,
            |
                ranges == groups.flatten() && #[trigger] is_hard_lines(flow, lines)
                    && #[trigger] is_wrapped_lines(
                    backend,
                    typography,
                    items,
                    image_sizes,
                    objects,
                    width,
                    lines,
                    groups,
                );
            let n = lines.len() as int;
            lemma_wrapped_units(
                backend,
                typography,
                items,
                image_sizes,
                objects,
                width,
                lines,
                groups,
                n,
            );
            lemma_hard_lines_units(flow, lines, n);
            assert(groups.take(n) =~= groups);
            assert(lines.take(n) =~= lines);
            assert(flow.take(flow.len() as int) =~= flow);
        },
    }
}

proof fn lemma_placed_lines_units<K: Kit, B: Backend<K>>(
    backend: &B,
    typography: &InlineFlowTypography<K>,
    items: Seq<ItemView<K>>,
    image_sizes: Seq<Option<Size<K::Num>>>,
    answers: FlowAnswers<K>,
    n: int,
)
    requires
        items.len() <= usize::MAX,
        flow_len(items) <= usize::MAX,
        answers.sizes.len() == items.len(),
        sizes_cover(items, answers.sizes),
        in_flow(flow_content(items), answers.ranges),
        is_lines(
            backend,
            typography,
            answers.line_height,
            items,
            image_sizes,
            answers.objects,
            answers.sizes,
            answers.ranges,
            answers.lines,
        ),
        0 <= n <= answers.lines.len(),
    ensures
        layout_units(items, placed_lines(answers.lines, n)) == ranges_units(
            flow_content(items),
            answers.ranges.take(n),
        ),
    decreases n,
{
    let flow = flow_content(items);
    if n > 0 {
        lemma_placed_lines_units(backend, typography, items, image_sizes, answers, n - 1);
        let (line, range) = (answers.lines[n - 1], answers.ranges[n - 1]);
        let plan = line_plan(items, answers.sizes, range);
        let y = top_after(answers.lines, n - 1);
        assert(is_line(
            backend,
            typography,
            answers.line_height,
            items,
            image_sizes,
            answers.objects,
            answers.sizes,
            range,
            line,
        ));
        lemma_placed_line_units(
            backend,
            typography,
            answers.line_height,
            items,
            image_sizes,
            answers.objects,
            plan,
            line,
            y,
            plan.len() as int,
        );
        law_line_shows_its_range(items, answers.sizes, range);
        assert(placed_line(line, y).take(plan.len() as int) =~= placed_line(line, y));
        assert(plan.take(plan.len() as int) =~= plan);
        lemma_layout_units_append(items, placed_lines(answers.lines, n - 1), placed_line(line, y));
        assert(answers.ranges.take(n).drop_last() =~= answers.ranges.take(n - 1));
    }
}

/// What the window answered shows all of a flow but its line feeds, where its
/// stretches of one size cover each text.
pub proof fn lemma_answers_show_flow<K: Kit, B: Backend<K>>(
    backend: &B,
    typography: &InlineFlowTypography<K>,
    items: Seq<ItemView<K>>,
    image_sizes: Seq<Option<Size<K::Num>>>,
    prepared: Seq<Option<MeasuredInlineObject<K>>>,
    wrap_width: Option<K::Num>,
    answers: FlowAnswers<K>,
)
    requires
        items.len() <= usize::MAX,
        flow_len(items) <= usize::MAX,
        sizes_cover(items, answers.sizes),
        wrap_width is Some ==> breaks_ordered::<K, B>(backend),
        is_answers(backend, typography, items, image_sizes, prepared, wrap_width, answers),
    ensures
        layout_units(items, layout_of_lines(answers.lines, wrap_width).fragments)
            == without_breaks(flow_content(items)),
{
    lemma_line_ranges_units(
        backend,
        typography,
        items,
        image_sizes,
        answers.objects,
        wrap_width,
        answers.ranges,
    );
    let n = answers.lines.len() as int;
    lemma_placed_lines_units(backend, typography, items, image_sizes, answers, n);
    assert(answers.ranges.take(n) =~= answers.ranges);
}

/// A layout shows all of its flow, each unit once and in order, except for the
/// line feeds, which the lines break at: nothing is lost or shown twice, at
/// whatever width the flow is wrapped.
pub proof fn law_layout_shows_flow<K: Kit, B: Backend<K>>(
    backend: &B,
    typography: &InlineFlowTypography<K>,
    items: Seq<ItemView<K>>,
    image_sizes: Seq<Option<Size<K::Num>>>,
    prepared: Seq<Option<MeasuredInlineObject<K>>>,
    wrap_width: Option<K::Num>,
    out: LayoutView<K>,
)
    requires
        items.len() <= usize::MAX,
        flow_len(items) <= usize::MAX,
        sizes_tile::<K, B>(backend),
        wrap_width is Some ==> breaks_ordered::<K, B>(backend),
        is_layout(backend, typography, items, image_sizes, prepared, wrap_width, out),
    ensures
        layout_units(items, out.fragments) == without_breaks(flow_content(items)),
{
    if flow_len(items) == 0 {
        reveal(Seq::filter);
        assert(layout_units(items, out.fragments) =~= without_breaks(flow_content(items)));
    } else {
        let answers = choose|answers: FlowAnswers<K>| #[trigger]
            is_answers(
                backend,
                typography,
                items,
                image_sizes,
                prepared,
                wrap_width,
                answers,
            ) && out == layout_of_lines(answers.lines, wrap_width);
        assert forall|ix: int|
            #![trigger answers.sizes[ix]]
            0 <= ix < items.len() && items[ix] is Text implies tiles(
            stretches(answers.sizes[ix]),
            0,
            items[ix].len() as int,
        ) by {
            assert(is_sizes(backend, items[ix], answers.sizes[ix]));
            lemma_content_at(items, ix);
            lemma_offset_step(items, ix);
        }
        lemma_answers_show_flow(
            backend,
            typography,
            items,
            image_sizes,
            prepared,
            wrap_width,
            answers,
        );
    }
}

/// Whether a placed fragment shows an item that is there and of its kind, and
/// a text carries the characters that it shows.
pub open spec fn shows_item<K: Kit>(
    items: Seq<ItemView<K>>,
    fragment: PositionedView<K>,
) -> bool {
    let ix = shown_item(fragment) as int;
    &&& ix < items.len()
    &&& match fragment {
        PositionedView::Object { .. } => items[ix] is Object,
        PositionedView::Text { source_range, text, .. } => items[ix] matches ItemView::Text {
            text: own,
            ..
        } && text == chars_in(own, source_range.start as int, source_range.end as int),
        PositionedView::Image { .. } => items[ix] is Image,
    }
}

proof fn lemma_placed_lines_show_items<K: Kit, B: Backend<K>>(
    backend: &B,
    typography: &InlineFlowTypography<K>,
    items: Seq<ItemView<K>>,
    image_sizes: Seq<Option<Size<K::Num>>>,
    answers: FlowAnswers<K>,
    n: int,
    k: int,
)
    requires
        items.len() <= usize::MAX,
        is_lines(
            backend,
            typography,
            answers.line_height,
            items,
            image_sizes,
            answers.objects,
            answers.sizes,
            answers.ranges,
            answers.lines,
        ),
        0 <= n <= answers.lines.len(),
        0 <= k < placed_lines(answers.lines, n).len(),
    ensures
        shows_item(items, placed_lines(answers.lines, n)[k]),
    decreases n,
{
    let before = placed_lines(answers.lines, n - 1);
    if k < before.len() {
        lemma_placed_lines_show_items(
            backend,
            typography,
            items,
            image_sizes,
            answers,
            n - 1,
            k,
        );
    } else {
        let (line, range) = (answers.lines[n - 1], answers.ranges[n - 1]);
        let y = top_after(answers.lines, n - 1);
        let at = k - before.len();
        let plan = line_plan(items, answers.sizes, range);
        assert(placed_lines(answers.lines, n)[k] == placed_line(line, y)[at]);
        assert(is_line(
            backend,
            typography,
            answers.line_height,
            items,
            image_sizes,
            answers.objects,
            answers.sizes,
            range,
            line,
        ));
        lemma_plan_of_first(items, answers.sizes, range, items.len() as int);
        assert(is_fragment(
            backend,
            typography,
            answers.line_height,
            line.body_baseline,
            items,
            image_sizes,
            answers.objects,
            plan[at],
            line.fragments[at],
        ));
    }
}

/// Every fragment of a layout shows an item of the flow that it was laid out
/// from, and as what it is: a text as text, an image as an image, an object as
/// an object. A text carries the characters of its range of the item.
pub proof fn law_fragments_show_items<K: Kit, B: Backend<K>>(
    backend: &B,
    typography: &InlineFlowTypography<K>,
    items: Seq<ItemView<K>>,
    image_sizes: Seq<Option<Size<K::Num>>>,
    prepared: Seq<Option<MeasuredInlineObject<K>>>,
    wrap_width: Option<K::Num>,
    out: LayoutView<K>,
    k: int,
)
    requires
        items.len() <= usize::MAX,
        is_layout(backend, typography, items, image_sizes, prepared, wrap_width, out),
        0 <= k < out.fragments.len(),
    ensures
        shows_item(items, out.fragments[k]),
{
    let answers = choose|answers: FlowAnswers<K>| #[trigger]
        is_answers(
            backend,
            typography,
            items,
            image_sizes,
            prepared,
            wrap_width,
            answers,
        ) && out == layout_of_lines(answers.lines, wrap_width);
    lemma_placed_lines_show_items(
        backend,
        typography,
        items,
        image_sizes,
        answers,
        answers.lines.len() as int,
        k,
    );
}

/// A layout that is kept for a flow that matches the one before shows items of
/// the new flow as well.
pub proof fn law_kept_layout_shows_items<K: Kit>(
    before: KeyView<K>,
    after: KeyView<K>,
    fragment: PositionedView<K>,
)
    requires
        before.matches(after),
        shows_item(before.items, fragment),
    ensures
        shows_item(after.items, fragment),
{
    let ix = shown_item(fragment) as int;
    assert(before.items[ix].same_layout_input(after.items[ix]));
}

/// The text that a fragment carries is the bytes that it shows.
pub proof fn law_fragment_text_is_what_it_shows<K: Kit>(
    items: Seq<ItemView<K>>,
    fragment: PositionedView<K>,
)
    requires
        shows_item(items, fragment),
        fragment matches PositionedView::Text { item_ix, source_range, .. } && {
            let own = items[item_ix as int]->Text_text;
            &&& source_range.start <= source_range.end
            &&& on_char(own, source_range.start as int)
            &&& on_char(own, source_range.end as int)
        },
    ensures
        text_units(encode_utf8(fragment->Text_text)) == positioned_units(items, fragment),
{
    if let PositionedView::Text { item_ix, source_range, text, .. } = fragment {
        let own = items[item_ix as int]->Text_text;
        let (start, end) = (source_range.start as int, source_range.end as int);
        lemma_slice_bytes(own, start, end);
        assert(text_units(encode_utf8(text)) =~= content(items[item_ix as int]).subrange(
            start,
            end,
        ));
    }
}

} // verus!
