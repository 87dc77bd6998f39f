//! What a selection covers of a flow, in fixed point.

use vstd::prelude::*;

use crate::geometry::Bounds;
use crate::kit::Kit;
use crate::layout::{
    layout_of_lines, placed_line, placed_lines, top_after, LineView, PositionedView,
};
use crate::number::Fixed;
use crate::placement::{
    height_sum, law_fragment_lies_in_its_line, law_lines_stand_below_each_other,
    lemma_height_sum_grows, lemma_sound_extent, origin_of, size_of, sound_lines,
};

verus! {

/// The box that is painted where a placed fragment is selected. Images have
/// none.
pub open spec fn selection_of<K: Kit>(fragment: PositionedView<K>) -> Option<Bounds<K::Num>> {
    match fragment {
        PositionedView::Object { selection_bounds, .. } => Some(selection_bounds),
        PositionedView::Text { selection_bounds, .. } => Some(selection_bounds),
        PositionedView::Image { .. } => None,
    }
}

/// Where a box ends at the bottom.
pub open spec fn bottom_of(area: Bounds<Fixed>) -> int {
    area.origin.y.raw + area.size.height.raw
}

/// The selection of a fragment runs from the top of its line, which is where
/// the lines above it end, to the top of the line below, and is as wide as the
/// fragment, which lies inside it.
pub proof fn law_selection_covers_its_line<K: Kit<Num = Fixed>>(
    lines: Seq<LineView<K>>,
    n: int,
    i: int,
)
    requires
        sound_lines(lines),
        0 <= n < lines.len(),
        0 <= i < lines[n].fragments.len(),
    ensures
        ({
            let fragment = placed_line(lines[n], top_after(lines, n))[i];
            selection_of(fragment) matches Some(area) ==> {
                &&& area.origin.x == origin_of(fragment).x
                &&& area.size.width == size_of(fragment).width
                &&& area.origin.y.raw == height_sum(lines, n)
                &&& bottom_of(area) == height_sum(lines, n + 1)
                &&& bottom_of(area) == top_after(lines, n + 1).raw
                &&& area.origin.y.raw <= origin_of(fragment).y.raw
                &&& origin_of(fragment).y.raw + size_of(fragment).height.raw <= bottom_of(area)
            }
        }),
{
    law_lines_stand_below_each_other(lines, n);
    law_lines_stand_below_each_other(lines, n + 1);
    lemma_height_sum_grows(lines, n + 1, lines.len() as int);
    lemma_sound_extent(lines[n]);
    law_fragment_lies_in_its_line(lines[n], top_after(lines, n), i);
}

/// Every placed fragment stands on a line.
pub proof fn lemma_line_of<K: Kit>(lines: Seq<LineView<K>>, n: int, k: int) -> (at: (int, int))
    requires
        0 <= n <= lines.len(),
        0 <= k < placed_lines(lines, n).len(),
    ensures
        0 <= at.0 < n,
        0 <= at.1 < lines[at.0].fragments.len(),
        k == placed_lines(lines, at.0).len() + at.1,
        placed_lines(lines, n)[k] == placed_line(lines[at.0], top_after(lines, at.0))[at.1],
    decreases n,
{
    let before = placed_lines(lines, n - 1);
    if k < before.len() {
        lemma_line_of(lines, n - 1, k)
    } else {
        (n - 1, k - before.len())
    }
}

proof fn lemma_more_lines<K: Kit>(lines: Seq<LineView<K>>, i: int, j: int)
    requires
        0 <= i < j <= lines.len(),
    ensures
        placed_lines(lines, i).len() + lines[i].fragments.len() <= placed_lines(lines, j).len(),
    decreases j,
{
    if i < j - 1 {
        lemma_more_lines(lines, i, j - 1);
    }
}

/// The selections of two fragments of a flow stand on one line, and then cover
/// the same height, or the one of the fragment that comes first ends above the
/// other.
pub proof fn law_selections_of_two_lines_do_not_overlap<K: Kit<Num = Fixed>>(
    lines: Seq<LineView<K>>,
    wrap_width: Option<Fixed>,
    k: int,
    l: int,
)
    requires
        sound_lines(lines),
        0 <= k < l < layout_of_lines(lines, wrap_width).fragments.len(),
    ensures
        ({
            let fragments = layout_of_lines(lines, wrap_width).fragments;
            (selection_of(fragments[k]), selection_of(fragments[l])) matches (Some(a), Some(b))
                ==> {
                ||| a.origin.y == b.origin.y && a.size.height == b.size.height
                ||| bottom_of(a) <= b.origin.y.raw
            }
        }),
{
    let all = lines.len() as int;
    let (m, i) = lemma_line_of(lines, all, k);
    let (n, j) = lemma_line_of(lines, all, l);
    law_selection_covers_its_line(lines, m, i);
    law_selection_covers_its_line(lines, n, j);
    if m < n {
        lemma_height_sum_grows(lines, m + 1, n);
    } else if n < m {
        lemma_more_lines(lines, n, m);
    }
}

/// The selections of a flow lie inside the box that it reports as its size,
/// and that box ends where the last line does.
pub proof fn law_selections_lie_inside_the_flow<K: Kit<Num = Fixed>>(
    lines: Seq<LineView<K>>,
    wrap_width: Option<Fixed>,
    k: int,
)
    requires
        sound_lines(lines),
        0 <= k < layout_of_lines(lines, wrap_width).fragments.len(),
    ensures
        ({
            let layout = layout_of_lines(lines, wrap_width);
            &&& layout.size.height.raw == height_sum(lines, lines.len() as int)
            &&& selection_of(layout.fragments[k]) matches Some(area) ==> 0 <= area.origin.y.raw
                <= bottom_of(area) <= layout.size.height.raw
        }),
{
    let all = lines.len() as int;
    let (m, i) = lemma_line_of(lines, all, k);
    law_selection_covers_its_line(lines, m, i);
    law_lines_stand_below_each_other(lines, all);
    law_lines_stand_below_each_other(lines, m);
    lemma_height_sum_grows(lines, m, m + 1);
    lemma_height_sum_grows(lines, m + 1, all);
}

} // verus!
