//! In which order a layout shows its flow.

use std::ops::Range;

use vstd::prelude::*;

use crate::backend::{Backend, InlineFlowTypography, MeasuredInlineObject};
use crate::content::{
    breaks_at, flow_content, flow_len, is_hard_lines, lemma_content_at, lemma_offset_ends,
    lemma_offset_monotone, lemma_offset_step, offset, Unit,
};
use crate::coverage::{
    between, breaks_ordered, in_flow, law_fragments_show_items, lemma_line_ranges_units,
    lemma_tiles_prefix, lemma_wrapped_line_tiles, shows_item, sizes_cover, sizes_tile, stretches,
};
use crate::element::shown_item;
use crate::fragment::{
    is_fragment, item_plan, line_plan, plan_of_first, text_plan, PlannedFragment, SizeRange,
};
use crate::geometry::Size;
use crate::item::ItemView;
use crate::kit::Kit;
use crate::layout::{
    is_answers, is_layout, is_line, is_lines, is_sizes, layout_of_lines, placed_line, placed_lines,
    top_after, FlowAnswers, LayoutView, PositionedView,
};
use crate::wrap::{
    is_line_ranges, is_wrapped_line, is_wrapped_lines, local_range, reaches, tiles,
};

verus! {

/// Where in its item a placed fragment starts.
pub open spec fn start_in_item<K: Kit>(fragment: PositionedView<K>) -> int {
    match fragment {
        PositionedView::Text { source_range, .. } => source_range.start as int,
        _ => 0,
    }
}

/// Whether a fragment shows what comes before what another shows: of an earlier
/// item, or earlier in one item.
pub open spec fn comes_before<K: Kit>(a: PositionedView<K>, b: PositionedView<K>) -> bool {
    ||| shown_item(a) < shown_item(b)
    ||| shown_item(a) == shown_item(b) && start_in_item(a) < start_in_item(b)
}

/// The units of a flow that a planned fragment covers.
spec fn planned_reach<K: Kit>(
    items: Seq<ItemView<K>>,
    planned: PlannedFragment<K::Num>,
) -> (int, int) {
    match planned {
        PlannedFragment::Text { item_ix, start, end, .. } => (
            offset(items, item_ix as int) + start,
            offset(items, item_ix as int) + end,
        ),
        PlannedFragment::Atom { item_ix } => (
            offset(items, item_ix as int),
            offset(items, item_ix as int) + 1,
        ),
    }
}

/// Whether planned fragments cover parts of `from..to`, none of them empty, one
/// after the other.
spec fn plan_in_order<K: Kit>(
    items: Seq<ItemView<K>>,
    plan: Seq<PlannedFragment<K::Num>>,
    from: int,
    to: int,
) -> bool {
    &&& forall|i: int|
        #![trigger plan[i]]
        0 <= i < plan.len() ==> {
            let (start, end) = planned_reach(items, plan[i]);
            from <= start < end <= to
        }
    &&& forall|i: int, j: int|
        #![trigger plan[i], plan[j]]
        0 <= i < j < plan.len() ==> planned_reach(items, plan[i]).1 <= planned_reach(
            items,
            plan[j],
        ).0
}

proof fn lemma_plans_in_order_append<K: Kit>(
    items: Seq<ItemView<K>>,
    a: Seq<PlannedFragment<K::Num>>,
    from: int,
    middle: int,
    b: Seq<PlannedFragment<K::Num>>,
    to: int,
)
    requires
        plan_in_order(items, a, from, middle),
        plan_in_order(items, b, middle, to),
        from <= middle <= to,
    ensures
        plan_in_order(items, a + b, from, to),
{
    let all = a + b;
    assert forall|i: int| #![trigger all[i]] 0 <= i < all.len() implies {
        let (start, end) = planned_reach(items, all[i]);
        from <= start < end <= to
    } by {
        if i < a.len() {
            assert(all[i] == a[i]);
        } else {
            assert(all[i] == b[i - a.len()]);
        }
    }
    assert forall|i: int, j: int|
        #![trigger all[i], all[j]]
        0 <= i < j < all.len() implies planned_reach(items, all[i]).1 <= planned_reach(
        items,
        all[j],
    ).0 by {
        if j < a.len() {
            assert(all[i] == a[i] && all[j] == a[j]);
        } else if i < a.len() {
            assert(all[i] == a[i] && all[j] == b[j - a.len()]);
        } else {
            assert(all[i] == b[i - a.len()] && all[j] == b[j - a.len()]);
        }
    }
}

proof fn lemma_text_plan_in_order<K: Kit>(
    items: Seq<ItemView<K>>,
    ix: int,
    sizes: Seq<SizeRange<K::Num>>,
    range: Range<usize>,
    upto: int,
)
    requires
        0 <= ix < items.len() <= usize::MAX,
        range.start <= range.end,
        tiles(stretches(sizes), 0, upto),
    ensures
        plan_in_order(
            items,
            text_plan(ix as usize, sizes, range),
            offset(items, ix) + range.start,
            offset(items, ix) + between(range.start as int, upto, range.end as int),
        ),
    decreases sizes.len(),
{
    if sizes.len() > 0 {
        let before = sizes.drop_last();
        let ranges = stretches(sizes);
        assert(stretches(before) =~= ranges.drop_last());
        let from = ranges.last().start as int;
        lemma_tiles_prefix(ranges, 0, upto);
        lemma_text_plan_in_order(items, ix, before, range, from);
        assert(sizes.last().0 == ranges.last());
        assert(ranges.last() == ranges[ranges.len() - 1]);
        let head = text_plan(ix as usize, before, range);
        let plan = text_plan(ix as usize, sizes, range);
        let base = offset(items, ix);
        let middle = base + between(range.start as int, from, range.end as int);
        let end = base + between(range.start as int, upto, range.end as int);
        if plan.len() > head.len() {
            let one = seq![plan.last()];
            assert(plan =~= head + one);
            assert(plan_in_order(items, one, middle, end));
            lemma_plans_in_order_append(
                items,
                head,
                base + range.start,
                middle,
                one,
                end,
            );
        } else {
            assert(plan =~= head);
        }
    }
}

proof fn lemma_item_plan_in_order<K: Kit>(
    items: Seq<ItemView<K>>,
    sizes: Seq<Seq<SizeRange<K::Num>>>,
    line: Range<usize>,
    ix: int,
)
    requires
        0 <= ix < items.len() <= usize::MAX,
        flow_len(items) <= usize::MAX,
        sizes.len() == items.len(),
        sizes_cover(items, sizes),
        line.start <= line.end <= flow_len(items),
    ensures
        plan_in_order(
            items,
            item_plan(items, sizes, line, ix),
            between(line.start as int, offset(items, ix), line.end as int),
            between(line.start as int, offset(items, ix + 1), line.end as int),
        ),
{
    let (start, end) = (offset(items, ix), offset(items, ix + 1));
    let plan = item_plan(items, sizes, line, ix);
    lemma_offset_step(items, ix);
    lemma_offset_monotone(items, ix, ix + 1);
    if reaches(items, ix, line) {
        if items[ix] is Text {
            let range = local_range(items, ix, line);
            assert(sizes[ix] == sizes[ix]);
            lemma_text_plan_in_order(items, ix, sizes[ix], range, items[ix].len() as int);
        } else {
            assert(plan.len() == 1);
            assert(planned_reach(items, plan[0]) == (start, start + 1));
        }
    }
}

proof fn lemma_plan_in_order<K: Kit>(
    items: Seq<ItemView<K>>,
    sizes: Seq<Seq<SizeRange<K::Num>>>,
    line: Range<usize>,
    n: int,
)
    requires
        0 <= n <= items.len() <= usize::MAX,
        flow_len(items) <= usize::MAX,
        sizes.len() == items.len(),
        sizes_cover(items, sizes),
        line.start <= line.end <= flow_len(items),
    ensures
        plan_in_order(
            items,
            plan_of_first(items, sizes, line, n),
            line.start as int,
            between(line.start as int, offset(items, n), line.end as int),
        ),
    decreases n,
{
    if n > 0 {
        lemma_plan_in_order(items, sizes, line, n - 1);
        lemma_item_plan_in_order(items, sizes, line, n - 1);
        lemma_offset_monotone(items, n - 1, n);
        lemma_plans_in_order_append(
            items,
            plan_of_first(items, sizes, line, n - 1),
            line.start as int,
            between(line.start as int, offset(items, n - 1), line.end as int),
            item_plan(items, sizes, line, n - 1),
            between(line.start as int, offset(items, n), line.end as int),
        );
    }
}

/// Whether ranges follow one another.
spec fn ranges_in_order(ranges: Seq<Range<usize>>) -> bool {
    forall|i: int, j: int|
        #![trigger ranges[i], ranges[j]]
        0 <= i < j < ranges.len() ==> ranges[i].end <= ranges[j].start
}

/// Whether no range reaches past `to`.
spec fn ranges_end_by(ranges: Seq<Range<usize>>, to: int) -> bool {
    forall|i: int| #![trigger ranges[i]] 0 <= i < ranges.len() ==> ranges[i].end <= to
}

/// Ranges that cover a stretch follow one another inside of it.
proof fn lemma_tiles_in_order(ranges: Seq<Range<usize>>, start: int, end: int)
    requires
        tiles(ranges, start, end),
    ensures
        ranges_in_order(ranges),
        ranges_end_by(ranges, end),
        forall|i: int| #![trigger ranges[i]] 0 <= i < ranges.len() ==> start <= ranges[i].start,
    decreases ranges.len(),
{
    if ranges.len() > 0 {
        let before = ranges.drop_last();
        lemma_tiles_prefix(ranges, start, end);
        lemma_tiles_in_order(before, start, ranges.last().start as int);
        let last = ranges.len() - 1;
        assert(ranges[last] == ranges.last());
        assert(ranges[last].start <= ranges[last].end);
        assert forall|i: int| #![trigger ranges[i]] 0 <= i < ranges.len() implies ranges[i].end
            <= end && start <= ranges[i].start by {
            if i < last {
                assert(ranges[i] == before[i]);
            }
        }
        assert forall|i: int, j: int|
            #![trigger ranges[i], ranges[j]]
            0 <= i < j < ranges.len() implies ranges[i].end <= ranges[j].start by {
            assert(ranges[i] == before[i]);
            if j < last {
                assert(ranges[j] == before[j]);
            }
        }
    }
}

/// A place in a stretch lies in one of the ranges that cover it.
proof fn lemma_tiles_hold(ranges: Seq<Range<usize>>, start: int, end: int, at: int) -> (i: int)
    requires
        tiles(ranges, start, end),
        start <= at < end,
    ensures
        0 <= i < ranges.len(),
        ranges[i].start <= at < ranges[i].end,
    decreases ranges.len(),
{
    lemma_tiles_prefix(ranges, start, end);
    let last = ranges.len() - 1;
    assert(ranges[last] == ranges.last());
    if ranges[last].start <= at {
        last
    } else {
        lemma_tiles_hold(ranges.drop_last(), start, ranges[last].start as int, at)
    }
}

proof fn lemma_groups_in_order(
    lines: Seq<Range<usize>>,
    groups: Seq<Seq<Range<usize>>>,
    flow: Seq<Unit>,
    n: int,
)
    requires
        is_hard_lines(flow, lines),
        groups.len() == lines.len(),
        forall|i: int|
            #![trigger groups[i]]
            0 <= i < groups.len() ==> tiles(
                groups[i],
                lines[i].start as int,
                lines[i].end as int,
            ),
        0 < n <= lines.len(),
    ensures
        ranges_in_order(groups.take(n).flatten()),
        ranges_end_by(groups.take(n).flatten(), lines[n - 1].end as int),
    decreases n,
{
    let group = groups[n - 1];
    let (before, all) = (groups.take(n - 1).flatten(), groups.take(n).flatten());
    assert(groups.take(n) =~= groups.take(n - 1).push(group));
    groups.take(n - 1).lemma_flatten_push(group);
    lemma_tiles_in_order(group, lines[n - 1].start as int, lines[n - 1].end as int);
    assert(lines[n - 1].start <= lines[n - 1].end);
    if n == 1 {
        assert(groups.take(0) =~= Seq::empty());
        assert(before =~= Seq::empty());
    } else {
        lemma_groups_in_order(lines, groups, flow, n - 1);
        assert(lines[n - 2].end + 1 == lines[n - 1].start);
    }
    assert forall|i: int| #![trigger all[i]] 0 <= i < all.len() implies all[i].end
        <= lines[n - 1].end by {
        if i < before.len() {
            assert(all[i] == before[i]);
        } else {
            assert(all[i] == group[i - before.len()]);
        }
    }
    assert forall|i: int, j: int|
        #![trigger all[i], all[j]]
        0 <= i < j < all.len() implies all[i].end <= all[j].start by {
        if j < before.len() {
            assert(all[i] == before[i] && all[j] == before[j]);
        } else if i < before.len() {
            assert(all[i] == before[i] && all[j] == group[j - before.len()]);
        } else {
            assert(all[i] == group[i - before.len()] && all[j] == group[j - before.len()]);
        }
    }
}

proof fn lemma_hard_lines_in_order(flow: Seq<Unit>, lines: Seq<Range<usize>>, i: int, j: int)
    requires
        is_hard_lines(flow, lines),
        0 <= i < j < lines.len(),
    ensures
        lines[i].end <= lines[j].start,
    decreases j - i,
{
    assert(lines[j - 1].end + 1 == lines[j].start);
    if i < j - 1 {
        lemma_hard_lines_in_order(flow, lines, i, j - 1);
        assert(lines[j - 1].start <= lines[j - 1].end);
    }
}

/// A unit that is no line feed lies in a hard line.
proof fn lemma_hard_line_with(flow: Seq<Unit>, lines: Seq<Range<usize>>, at: int, from: int) -> (i:
    int)
    requires
        is_hard_lines(flow, lines),
        0 <= from < lines.len(),
        lines[from].start <= at < flow.len(),
        !breaks_at(flow, at),
    ensures
        0 <= i < lines.len(),
        lines[i].start <= at < lines[i].end,
    decreases lines.len() - from,
{
    if at < lines[from].end {
        from
    } else {
        assert(from == lines.len() - 1 ==> lines[from] == lines.last());
        assert(breaks_at(flow, lines[from].end as int));
        assert(lines[from + 1].start == lines[from].end + 1);
        lemma_hard_line_with(flow, lines, at, from + 1)
    }
}

/// A piece of a group is a piece of all groups together.
proof fn lemma_in_flatten<T>(groups: Seq<Seq<T>>, n: int, i: int, j: int) -> (at: int)
    requires
        0 <= i < n <= groups.len(),
        0 <= j < groups[i].len(),
    ensures
        0 <= at < groups.take(n).flatten().len(),
        groups.take(n).flatten()[at] == groups[i][j],
    decreases n,
{
    assert(groups.take(n) =~= groups.take(n - 1).push(groups[n - 1]));
    groups.take(n - 1).lemma_flatten_push(groups[n - 1]);
    if i == n - 1 {
        groups.take(n - 1).flatten().len() + j
    } else {
        lemma_in_flatten(groups, n - 1, i, j)
    }
}

/// The lines of a flow follow one another, and every unit but a line feed is in
/// one of them.
proof fn lemma_line_ranges_in_order<K: Kit, B: Backend<K>>(
    backend: &B,
    typography: &InlineFlowTypography<K>,
    items: Seq<ItemView<K>>,
    image_sizes: Seq<Option<Size<K::Num>>>,
    objects: Seq<Option<MeasuredInlineObject<K>>>,
    wrap_width: Option<K::Num>,
    ranges: Seq<Range<usize>>,
)
    requires
        wrap_width is Some ==> breaks_ordered::<K, B>(backend),
        is_line_ranges(
            backend,
            typography,
            items,
            image_sizes,
            objects,
            wrap_width,
            ranges,
        ),
    ensures
        ranges_in_order(ranges),
        forall|at: int|
            0 <= at < flow_len(items) && !#[trigger] breaks_at(flow_content(items), at)
                ==> exists|m: int|
                #![trigger ranges[m]]
                0 <= m < ranges.len() && ranges[m].start <= at < ranges[m].end,
{
    let flow = flow_content(items);
    match wrap_width {
        None => {
            assert forall|i: int, j: int|
                #![trigger ranges[i], ranges[j]]
                0 <= i < j < ranges.len() implies ranges[i].end <= ranges[j].start by {
                lemma_hard_lines_in_order(flow, ranges, i, j);
            }
            assert forall|at: int|
                0 <= at < flow_len(items) && !#[trigger] breaks_at(flow, at) implies exists|m: int|
                #![trigger ranges[m]]
                0 <= m < ranges.len() && ranges[m].start <= at < ranges[m].end by {
                let m = lemma_hard_line_with(flow, ranges, at, 0);
                assert(ranges[m].start <= at);
            }
        },
        Some(width) => {
            let (lines, groups) = choose|
                lines: Seq<Range<usize>>,
                groups: Seq<Seq<Range<usize>>>,
            |
                ranges == groups.flatten() && #[trigger] is_hard_lines(flow, lines)
                    && #[trigger] is_wrapped_lines(
                    backend,
                    typography,
                    items,
                    image_sizes,
                    objects,
                    width,
                    lines,
                    groups,
                );
            let n = lines.len() as int;
            assert forall|i: int| #![trigger groups[i]] 0 <= i < groups.len() implies tiles(
                groups[i],
                lines[i].start as int,
                lines[i].end as int,
            ) by {
                assert(is_wrapped_line(
                    backend,
                    typography,
                    items,
                    image_sizes,
                    objects,
                    width,
                    lines[i],
                    groups[i],
                ));
                lemma_wrapped_line_tiles(
                    backend,
                    typography,
                    items,
                    image_sizes,
                    objects,
                    width,
                    lines[i],
                    groups[i],
                );
            }
            assert(groups.take(n) =~= groups);
            lemma_groups_in_order(lines, groups, flow, n);
            assert forall|at: int|
                0 <= at < flow_len(items) && !#[trigger] breaks_at(flow, at) implies exists|m: int|
                #![trigger ranges[m]]
                0 <= m < ranges.len() && ranges[m].start <= at < ranges[m].end by {
                let i = lemma_hard_line_with(flow, lines, at, 0);
                let j = lemma_tiles_hold(
                    groups[i],
                    lines[i].start as int,
                    lines[i].end as int,
                    at,
                );
                let m = lemma_in_flatten(groups, n, i, j);
                assert(ranges[m] == groups[i][j]);
            }
        },
    }
}

/// The units of a flow that a placed fragment covers.
spec fn reach<K: Kit>(items: Seq<ItemView<K>>, fragment: PositionedView<K>) -> (int, int) {
    let base = offset(items, shown_item(fragment) as int);
    match fragment {
        PositionedView::Text { source_range, .. } => (
            base + source_range.start,
            base + source_range.end,
        ),
        _ => (base, base + 1),
    }
}

/// The fragments of a line cover what was planned for it.
proof fn lemma_line_reach<K: Kit, B: Backend<K>>(
    backend: &B,
    typography: &InlineFlowTypography<K>,
    items: Seq<ItemView<K>>,
    image_sizes: Seq<Option<Size<K::Num>>>,
    answers: FlowAnswers<K>,
    m: int,
    i: int,
)
    requires
        lines_of(backend, typography, items, image_sizes, answers),
        0 <= m < answers.lines.len(),
        0 <= i < answers.lines[m].fragments.len(),
    ensures
        answers.lines[m].fragments.len() == line_plan(
            items,
            answers.sizes,
            answers.ranges[m],
        ).len(),
        ({
            let planned = line_plan(items, answers.sizes, answers.ranges[m])[i];
            let placed = placed_line(answers.lines[m], top_after(answers.lines, m))[i];
            &&& reach(items, placed) == planned_reach(items, planned)
            &&& planned matches PlannedFragment::Atom { item_ix } ==> shown_item(placed) == item_ix
        }),
{
    let (line, range) = (answers.lines[m], answers.ranges[m]);
    assert(is_line(
        backend,
        typography,
        answers.line_height,
        items,
        image_sizes,
        answers.objects,
        answers.sizes,
        range,
        line,
    ));
    assert(is_fragment(
        backend,
        typography,
        answers.line_height,
        line.body_baseline,
        items,
        image_sizes,
        answers.objects,
        line_plan(items, answers.sizes, range)[i],
        line.fragments[i],
    ));
}

/// What is known of answers whose lines follow one another.
spec fn lines_of<K: Kit, B: Backend<K>>(
    backend: &B,
    typography: &InlineFlowTypography<K>,
    items: Seq<ItemView<K>>,
    image_sizes: Seq<Option<Size<K::Num>>>,
    answers: FlowAnswers<K>,
) -> bool {
    &&& items.len() <= usize::MAX
    &&& flow_len(items) <= usize::MAX
    &&& answers.sizes.len() == items.len()
    &&& sizes_cover(items, answers.sizes)
    &&& in_flow(flow_content(items), answers.ranges)
    &&& ranges_in_order(answers.ranges)
    &&& is_lines(
        backend,
        typography,
        answers.line_height,
        items,
        image_sizes,
        answers.objects,
        answers.sizes,
        answers.ranges,
        answers.lines,
    )
}

proof fn lemma_placed_reach<K: Kit, B: Backend<K>>(
    backend: &B,
    typography: &InlineFlowTypography<K>,
    items: Seq<ItemView<K>>,
    image_sizes: Seq<Option<Size<K::Num>>>,
    answers: FlowAnswers<K>,
    n: int,
    k: int,
) -> (at: (int, int))
    requires
        lines_of(backend, typography, items, image_sizes, answers),
        0 <= n <= answers.lines.len(),
        0 <= k < placed_lines(answers.lines, n).len(),
    ensures
        0 <= at.0 < n,
        0 <= at.1 < answers.lines[at.0].fragments.len(),
        placed_lines(answers.lines, n)[k] == placed_line(
            answers.lines[at.0],
            top_after(answers.lines, at.0),
        )[at.1],
        k == placed_lines(answers.lines, at.0).len() + at.1,
    decreases n,
{
    let before = placed_lines(answers.lines, n - 1);
    if k < before.len() {
        lemma_placed_reach(backend, typography, items, image_sizes, answers, n - 1, k)
    } else {
        (n - 1, k - before.len())
    }
}

/// More lines have no fewer fragments.
proof fn lemma_placed_lines_grow<K: Kit>(answers: FlowAnswers<K>, i: int, j: int)
    requires
        0 <= i <= j <= answers.lines.len(),
    ensures
        placed_lines(answers.lines, i).len() <= placed_lines(answers.lines, j).len(),
        i < j ==> placed_lines(answers.lines, i).len() + answers.lines[i].fragments.len()
            <= placed_lines(answers.lines, j).len(),
        forall|k: int|
            0 <= k < placed_lines(answers.lines, i).len() ==> #[trigger] placed_lines(
                answers.lines,
                j,
            )[k] == placed_lines(answers.lines, i)[k],
    decreases j - i,
{
    if i < j {
        lemma_placed_lines_grow(answers, i, j - 1);
        assert(placed_lines(answers.lines, j) == placed_lines(answers.lines, j - 1) + placed_line(
            answers.lines[j - 1],
            top_after(answers.lines, j - 1),
        ));
    }
}

/// An earlier fragment covers units before those of a later one.
proof fn lemma_reaches_in_order<K: Kit, B: Backend<K>>(
    backend: &B,
    typography: &InlineFlowTypography<K>,
    items: Seq<ItemView<K>>,
    image_sizes: Seq<Option<Size<K::Num>>>,
    answers: FlowAnswers<K>,
    i: int,
    j: int,
)
    requires
        lines_of(backend, typography, items, image_sizes, answers),
        0 <= i < j < placed_lines(answers.lines, answers.lines.len() as int).len(),
    ensures
        ({
            let all = placed_lines(answers.lines, answers.lines.len() as int);
            &&& reach(items, all[i]).0 < reach(items, all[i]).1
            &&& reach(items, all[i]).1 <= reach(items, all[j]).0
            &&& reach(items, all[j]).0 < reach(items, all[j]).1
        }),
{
    let n = answers.lines.len() as int;
    let (a, x) = lemma_placed_reach(backend, typography, items, image_sizes, answers, n, i);
    let (b, y) = lemma_placed_reach(backend, typography, items, image_sizes, answers, n, j);
    lemma_line_reach(backend, typography, items, image_sizes, answers, a, x);
    lemma_line_reach(backend, typography, items, image_sizes, answers, b, y);
    lemma_offset_ends(items);
    let (p, q) = (answers.ranges[a], answers.ranges[b]);
    lemma_plan_in_order(items, answers.sizes, p, items.len() as int);
    lemma_plan_in_order(items, answers.sizes, q, items.len() as int);
    let (first, second) = (
        line_plan(items, answers.sizes, p),
        line_plan(items, answers.sizes, q),
    );
    assert(planned_reach(items, first[x]).1 <= p.end);
    assert(q.start <= planned_reach(items, second[y]).0);
    if b < a {
        lemma_placed_lines_grow(answers, b, a);
    }
}

/// What a fragment covers lies in the item that it shows.
proof fn lemma_reach_in_item<K: Kit>(
    items: Seq<ItemView<K>>,
    a: PositionedView<K>,
    b: PositionedView<K>,
)
    requires
        shows_item(items, a),
        shows_item(items, b),
        reach(items, a).0 < reach(items, a).1 <= reach(items, b).0 < reach(items, b).1,
        reach(items, a).1 <= offset(items, shown_item(a) as int + 1),
        reach(items, b).1 <= offset(items, shown_item(b) as int + 1),
    ensures
        comes_before(a, b),
{
    let (i, j) = (shown_item(a) as int, shown_item(b) as int);
    if j < i {
        lemma_offset_monotone(items, j + 1, i);
    }
}

/// A fragment covers no more than its item.
proof fn lemma_reach_ends<K: Kit, B: Backend<K>>(
    backend: &B,
    typography: &InlineFlowTypography<K>,
    items: Seq<ItemView<K>>,
    image_sizes: Seq<Option<Size<K::Num>>>,
    answers: FlowAnswers<K>,
    k: int,
)
    requires
        lines_of(backend, typography, items, image_sizes, answers),
        0 <= k < placed_lines(answers.lines, answers.lines.len() as int).len(),
        shows_item(items, placed_lines(answers.lines, answers.lines.len() as int)[k]),
    ensures
        ({
            let fragment = placed_lines(answers.lines, answers.lines.len() as int)[k];
            reach(items, fragment).1 <= offset(items, shown_item(fragment) as int + 1)
        }),
{
    let n = answers.lines.len() as int;
    let fragment = placed_lines(answers.lines, n)[k];
    let (m, i) = lemma_placed_reach(backend, typography, items, image_sizes, answers, n, k);
    lemma_line_reach(backend, typography, items, image_sizes, answers, m, i);
    let ix = shown_item(fragment) as int;
    lemma_offset_step(items, ix);
    let plan = line_plan(items, answers.sizes, answers.ranges[m]);
    lemma_planned_in_item(items, answers.sizes, answers.ranges[m], items.len() as int, i);
    assert(is_fragment(
        backend,
        typography,
        answers.line_height,
        answers.lines[m].body_baseline,
        items,
        image_sizes,
        answers.objects,
        plan[i],
        answers.lines[m].fragments[i],
    )) by {
        assert(is_line(
            backend,
            typography,
            answers.line_height,
            items,
            image_sizes,
            answers.objects,
            answers.sizes,
            answers.ranges[m],
            answers.lines[m],
        ));
    }
}

/// The item of a planned fragment.
spec fn planned_item<N>(planned: PlannedFragment<N>) -> int {
    match planned {
        PlannedFragment::Text { item_ix, .. } => item_ix as int,
        PlannedFragment::Atom { item_ix } => item_ix as int,
    }
}

/// A planned fragment covers no more than its item.
proof fn lemma_planned_in_item<K: Kit>(
    items: Seq<ItemView<K>>,
    sizes: Seq<Seq<SizeRange<K::Num>>>,
    line: Range<usize>,
    n: int,
    i: int,
)
    requires
        0 <= n <= items.len() <= usize::MAX,
        flow_len(items) <= usize::MAX,
        sizes.len() == items.len(),
        sizes_cover(items, sizes),
        line.start <= line.end <= flow_len(items),
        0 <= i < plan_of_first(items, sizes, line, n).len(),
    ensures
        ({
            let planned = plan_of_first(items, sizes, line, n)[i];
            planned_reach(items, planned).1 <= offset(items, planned_item(planned) + 1)
        }),
    decreases n,
{
    let before = plan_of_first(items, sizes, line, n - 1);
    if i < before.len() {
        lemma_planned_in_item(items, sizes, line, n - 1, i);
        assert(plan_of_first(items, sizes, line, n)[i] == before[i]);
    } else {
        let own = item_plan(items, sizes, line, n - 1);
        let at = i - before.len();
        assert(plan_of_first(items, sizes, line, n)[i] == own[at]);
        lemma_item_plan_in_order(items, sizes, line, n - 1);
        lemma_offset_step(items, n - 1);
        lemma_offset_monotone(items, n - 1, n);
        assert(own[at] == own[at]);
        if items[n - 1] is Text {
            lemma_text_plan_item(
                (n - 1) as usize,
                sizes[n - 1],
                local_range(items, n - 1, line),
                at,
            );
        }
    }
}

proof fn lemma_text_plan_item<N>(
    item_ix: usize,
    sizes: Seq<SizeRange<N>>,
    range: Range<usize>,
    i: int,
)
    requires
        0 <= i < text_plan(item_ix, sizes, range).len(),
    ensures
        planned_item(text_plan(item_ix, sizes, range)[i]) == item_ix,
        text_plan(item_ix, sizes, range)[i] is Text,
    decreases sizes.len(),
{
    let before = text_plan(item_ix, sizes.drop_last(), range);
    if i < before.len() {
        lemma_text_plan_item(item_ix, sizes.drop_last(), range, i);
    }
}

/// An image or object that a line reaches is planned for it.
proof fn lemma_atom_is_planned<K: Kit>(
    items: Seq<ItemView<K>>,
    sizes: Seq<Seq<SizeRange<K::Num>>>,
    line: Range<usize>,
    n: int,
    ix: int,
) -> (i: int)
    requires
        0 <= ix < n <= items.len() <= usize::MAX,
        !(items[ix] is Text),
        reaches(items, ix, line),
    ensures
        0 <= i < plan_of_first(items, sizes, line, n).len(),
        plan_of_first(items, sizes, line, n)[i] == (PlannedFragment::<K::Num>::Atom {
            item_ix: ix as usize,
        }),
    decreases n,
{
    let before = plan_of_first(items, sizes, line, n - 1);
    if ix == n - 1 {
        let i = before.len() as int;
        assert(plan_of_first(items, sizes, line, n)[i] == item_plan(items, sizes, line, ix)[0]);
        i
    } else {
        let i = lemma_atom_is_planned(items, sizes, line, n - 1, ix);
        assert(plan_of_first(items, sizes, line, n)[i] == before[i]);
        i
    }
}

/// The answers behind a layout of a flow that is not empty.
proof fn lemma_answers_in_order<K: Kit, B: Backend<K>>(
    backend: &B,
    typography: &InlineFlowTypography<K>,
    items: Seq<ItemView<K>>,
    image_sizes: Seq<Option<Size<K::Num>>>,
    prepared: Seq<Option<MeasuredInlineObject<K>>>,
    wrap_width: Option<K::Num>,
    out: LayoutView<K>,
) -> (answers: FlowAnswers<K>)
    requires
        items.len() <= usize::MAX,
        0 < flow_len(items) <= usize::MAX,
        sizes_tile::<K, B>(backend),
        wrap_width is Some ==> breaks_ordered::<K, B>(backend),
        is_layout(backend, typography, items, image_sizes, prepared, wrap_width, out),
    ensures
        lines_of(backend, typography, items, image_sizes, answers),
        out == layout_of_lines(answers.lines, wrap_width),
        forall|at: int|
            0 <= at < flow_len(items) && !#[trigger] breaks_at(flow_content(items), at)
                ==> exists|m: int|
                #![trigger answers.ranges[m]]
                0 <= m < answers.ranges.len() && answers.ranges[m].start <= at
                    < answers.ranges[m].end,
{
    let answers = choose|answers: FlowAnswers<K>| #[trigger]
        is_answers(
            backend,
            typography,
            items,
            image_sizes,
            prepared,
            wrap_width,
            answers,
        ) && out == layout_of_lines(answers.lines, wrap_width);
    assert forall|ix: int|
        #![trigger answers.sizes[ix]]
        0 <= ix < items.len() && items[ix] is Text implies tiles(
        stretches(answers.sizes[ix]),
        0,
        items[ix].len() as int,
    ) by {
        assert(is_sizes(backend, items[ix], answers.sizes[ix]));
        lemma_content_at(items, ix);
        lemma_offset_step(items, ix);
    }
    lemma_line_ranges_units(
        backend,
        typography,
        items,
        image_sizes,
        answers.objects,
        wrap_width,
        answers.ranges,
    );
    lemma_line_ranges_in_order(
        backend,
        typography,
        items,
        image_sizes,
        answers.objects,
        wrap_width,
        answers.ranges,
    );
    answers
}

/// The fragments of a layout come in the order of the flow: an earlier one
/// shows an earlier item, or an earlier part of the same text.
pub proof fn law_fragments_come_in_order<K: Kit, B: Backend<K>>(
    backend: &B,
    typography: &InlineFlowTypography<K>,
    items: Seq<ItemView<K>>,
    image_sizes: Seq<Option<Size<K::Num>>>,
    prepared: Seq<Option<MeasuredInlineObject<K>>>,
    wrap_width: Option<K::Num>,
    out: LayoutView<K>,
    i: int,
    j: int,
)
    requires
        items.len() <= usize::MAX,
        flow_len(items) <= usize::MAX,
        sizes_tile::<K, B>(backend),
        wrap_width is Some ==> breaks_ordered::<K, B>(backend),
        is_layout(backend, typography, items, image_sizes, prepared, wrap_width, out),
        0 <= i < j < out.fragments.len(),
    ensures
        comes_before(out.fragments[i], out.fragments[j]),
{
    let answers = lemma_answers_in_order(
        backend,
        typography,
        items,
        image_sizes,
        prepared,
        wrap_width,
        out,
    );
    law_fragments_show_items(
        backend,
        typography,
        items,
        image_sizes,
        prepared,
        wrap_width,
        out,
        i,
    );
    law_fragments_show_items(
        backend,
        typography,
        items,
        image_sizes,
        prepared,
        wrap_width,
        out,
        j,
    );
    lemma_reaches_in_order(backend, typography, items, image_sizes, answers, i, j);
    lemma_reach_ends(backend, typography, items, image_sizes, answers, i);
    lemma_reach_ends(backend, typography, items, image_sizes, answers, j);
    lemma_reach_in_item(items, out.fragments[i], out.fragments[j]);
}

/// Each image and each object of a flow has exactly one fragment.
pub proof fn law_atoms_have_one_fragment<K: Kit, B: Backend<K>>(
    backend: &B,
    typography: &InlineFlowTypography<K>,
    items: Seq<ItemView<K>>,
    image_sizes: Seq<Option<Size<K::Num>>>,
    prepared: Seq<Option<MeasuredInlineObject<K>>>,
    wrap_width: Option<K::Num>,
    out: LayoutView<K>,
    ix: int,
)
    requires
        items.len() <= usize::MAX,
        flow_len(items) <= usize::MAX,
        sizes_tile::<K, B>(backend),
        wrap_width is Some ==> breaks_ordered::<K, B>(backend),
        is_layout(backend, typography, items, image_sizes, prepared, wrap_width, out),
        0 <= ix < items.len(),
        !(items[ix] is Text),
    ensures
        exists|k: int|
            #![trigger out.fragments[k]]
            0 <= k < out.fragments.len() && shown_item(out.fragments[k]) == ix && forall|other: int|
                #![trigger out.fragments[other]]
                0 <= other < out.fragments.len() && shown_item(out.fragments[other]) == ix
                    ==> other == k,
{
    let flow = flow_content(items);
    let at = offset(items, ix);
    lemma_content_at(items, ix);
    lemma_offset_step(items, ix);
    assert(flow[at] == flow.subrange(at, offset(items, ix + 1))[0]);
    assert(!breaks_at(flow, at));
    let answers = lemma_answers_in_order(
        backend,
        typography,
        items,
        image_sizes,
        prepared,
        wrap_width,
        out,
    );
    let ranges = answers.ranges;
    let m = choose|m: int|
        #![trigger ranges[m]]
        0 <= m < ranges.len() && ranges[m].start <= at < ranges[m].end;
    let n = answers.lines.len() as int;
    let i = lemma_atom_is_planned(items, answers.sizes, ranges[m], items.len() as int, ix);
    assert(is_line(
        backend,
        typography,
        answers.line_height,
        items,
        image_sizes,
        answers.objects,
        answers.sizes,
        ranges[m],
        answers.lines[m],
    ));
    lemma_line_reach(backend, typography, items, image_sizes, answers, m, i);
    let k = placed_lines(answers.lines, m).len() + i;
    lemma_placed_lines_grow(answers, m + 1, n);
    assert(placed_lines(answers.lines, m + 1)[k] == placed_line(
        answers.lines[m],
        top_after(answers.lines, m),
    )[i]);
    assert(placed_lines(answers.lines, n)[k] == placed_lines(answers.lines, m + 1)[k]);
    assert(shown_item(out.fragments[k]) == ix);
    assert forall|other: int|
        #![trigger out.fragments[other]]
        0 <= other < out.fragments.len() && shown_item(out.fragments[other]) == ix implies other
        == k by {
        if other != k {
            let (a, b) = if other < k {
                (other, k)
            } else {
                (k, other)
            };
            law_fragments_come_in_order(
                backend,
                typography,
                items,
                image_sizes,
                prepared,
                wrap_width,
                out,
                a,
                b,
            );
            law_fragments_show_items(
                backend,
                typography,
                items,
                image_sizes,
                prepared,
                wrap_width,
                out,
                other,
            );
            law_fragments_show_items(
                backend,
                typography,
                items,
                image_sizes,
                prepared,
                wrap_width,
                out,
                k,
            );
        }
    }
}

} // verus!
