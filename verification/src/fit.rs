//! What the line wrapper measures, held against what is laid out.

use std::ops::Range;
use std::sync::Arc;

use vstd::prelude::*;
use vstd::seq_lib::lemma_flatten_concat;

use crate::backend::{
    wrap_views, Backend, InlineFlowTypography, MeasuredInlineObject, WrapFragment, WrapView,
};
use crate::content::{
    breaks_at, content, flow_content, flow_len, is_hard_lines, lemma_offset_ends,
    lemma_offset_monotone, lemma_offset_step, offset,
};
use crate::coverage::{between, lemma_tiles_prefix};
use crate::fragment::{
    is_fragment, item_plan, lemma_plan_of_first, line_plan, plan_of_first, text_plan, FragmentView,
    PlannedFragment, SizeRange,
};
use crate::geometry::{AbsoluteLength, Size};
use crate::item::ItemView;
use crate::kit::Kit;
use crate::layout::{
    is_answers, is_layout, is_line, layout_of_lines, width_of_first, FlowAnswers, LayoutView,
    LineView,
};
use crate::number::{Fixed, Number};
use crate::placement::law_flow_fits_where_its_lines_do;
use crate::spans::{cuts, lemma_cuts_len, lemma_wrap_len_append, wrap_len};
use crate::text::{lemma_slice_bytes, text_slice};
use crate::wrap::{
    atoms_measured, in_order, is_hard_line, is_item_fragments, is_item_groups, is_line_fragments,
    is_wrapped_line, is_wrapped_lines, law_cut_covers_line, law_line_is_cut_at_its_breaks,
    lemma_local_line, local_range, pieces, reaches, tiles,
};

verus! {

/// An image or an object is handed to the line wrapper as one element that is
/// as wide as the fragment that is placed for it, and one unit long.
pub proof fn law_atom_wraps_as_wide_as_it_is_placed<K: Kit, B: Backend<K>>(
    backend: &B,
    typography: &InlineFlowTypography<K>,
    line_height: K::Num,
    body_baseline: K::Num,
    items: Seq<ItemView<K>>,
    image_sizes: Seq<Option<Size<K::Num>>>,
    objects: Seq<Option<MeasuredInlineObject<K>>>,
    wrap_width: K::Num,
    line: Range<usize>,
    ix: usize,
    out: Seq<WrapView<K::Num>>,
    fragment: FragmentView<K>,
)
    requires
        ix < items.len(),
        !(items[ix as int] is Text),
        reaches(items, ix as int, line),
        is_item_fragments(
            backend,
            typography,
            items,
            image_sizes,
            objects,
            wrap_width,
            line,
            ix as int,
            out,
        ),
        is_fragment(
            backend,
            typography,
            line_height,
            body_baseline,
            items,
            image_sizes,
            objects,
            PlannedFragment::Atom { item_ix: ix },
            fragment,
        ),
    ensures
        out == seq![WrapView::Element { width: fragment.size.width, len: 1 }],
        fragment.item_ix == ix,
{
}

/// How wide elements are together, one after the other.
pub open spec fn width_of_elements<N: Number>(fragments: Seq<WrapView<N>>) -> N
    decreases fragments.len(),
{
    if fragments.len() == 0 {
        N::spec_zero()
    } else {
        let before = width_of_elements(fragments.drop_last());
        match fragments.last() {
            WrapView::Element { width, .. } => before.spec_plus(width),
            WrapView::Text(_) => before,
        }
    }
}

/// Whether nothing but images and objects stands in `range`.
pub open spec fn atoms_only<K: Kit>(items: Seq<ItemView<K>>, range: Range<usize>) -> bool {
    forall|ix: int|
        #![trigger items[ix]]
        0 <= ix < items.len() && items[ix] is Text ==> items[ix].len() == 0 || offset(items, ix + 1)
            <= range.start || offset(items, ix) >= range.end
}

/// The images and objects among the first `n` items that stand in `range`.
spec fn atoms_in<K: Kit>(items: Seq<ItemView<K>>, range: Range<usize>, n: int) -> Seq<int>
    decreases n,
{
    if n <= 0 {
        Seq::empty()
    } else if !(items[n - 1] is Text) && offset(items, n - 1) >= range.start && offset(items, n - 1)
        < range.end {
        atoms_in(items, range, n - 1).push(n - 1)
    } else {
        atoms_in(items, range, n - 1)
    }
}

/// The atoms of a range of atoms stand in it unit by unit.
proof fn lemma_atoms_in<K: Kit>(items: Seq<ItemView<K>>, range: Range<usize>, n: int)
    requires
        0 <= n <= items.len(),
        range.start <= range.end,
        atoms_only(items, range),
    ensures
        atoms_in(items, range, n).len() == between(
            range.start as int,
            offset(items, n),
            range.end as int,
        ) - range.start,
        forall|j: int|
            #![trigger atoms_in(items, range, n)[j]]
            0 <= j < atoms_in(items, range, n).len() ==> {
                let ix = atoms_in(items, range, n)[j];
                &&& 0 <= ix < n
                &&& !(items[ix] is Text)
                &&& offset(items, ix) == range.start + j
            },
    decreases n,
{
    lemma_offset_ends(items);
    if n > 0 {
        lemma_atoms_in(items, range, n - 1);
        lemma_offset_step(items, n - 1);
        let (before, all) = (atoms_in(items, range, n - 1), atoms_in(items, range, n));
        assert forall|j: int| #![trigger all[j]] 0 <= j < all.len() implies {
            let ix = all[j];
            &&& 0 <= ix < n
            &&& !(items[ix] is Text)
            &&& offset(items, ix) == range.start + j
        } by {
            if j < before.len() {
                assert(all[j] == before[j]);
            }
        }
    }
}

proof fn lemma_atoms_are_apart<K: Kit>(items: Seq<ItemView<K>>, a: int, b: int)
    requires
        0 <= a < items.len(),
        0 <= b < items.len(),
        !(items[a] is Text),
        !(items[b] is Text),
        offset(items, a) == offset(items, b),
    ensures
        a == b,
{
    if a < b {
        lemma_offset_step(items, a);
        lemma_offset_monotone(items, a + 1, b);
    } else if b < a {
        lemma_offset_step(items, b);
        lemma_offset_monotone(items, b + 1, a);
    }
}

/// The plan of a range of atoms is its atoms.
proof fn lemma_atoms_are_planned<K: Kit>(
    items: Seq<ItemView<K>>,
    sizes: Seq<Seq<SizeRange<K::Num>>>,
    range: Range<usize>,
    n: int,
)
    requires
        0 <= n <= items.len() <= usize::MAX,
        flow_len(items) <= usize::MAX,
        range.start <= range.end,
        atoms_only(items, range),
    ensures
        plan_of_first(items, sizes, range, n) == atoms_in(items, range, n).map_values(
            |ix: int| PlannedFragment::<K::Num>::Atom { item_ix: ix as usize },
        ),
    decreases n,
{
    let as_planned = |ix: int| PlannedFragment::<K::Num>::Atom { item_ix: ix as usize };
    if n > 0 {
        lemma_atoms_are_planned(items, sizes, range, n - 1);
        lemma_offset_step(items, n - 1);
        lemma_offset_monotone(items, n - 1, n);
        let planned = item_plan(items, sizes, range, n - 1);
        if items[n - 1] is Text {
            if reaches(items, n - 1, range) {
                lemma_nothing_planned(
                    (n - 1) as usize,
                    sizes[n - 1],
                    local_range(items, n - 1, range),
                );
            }
            assert(planned.len() == 0);
        }
        assert(plan_of_first(items, sizes, range, n) =~= atoms_in(items, range, n).map_values(
            as_planned,
        ));
    } else {
        assert(plan_of_first(items, sizes, range, n) =~= atoms_in(items, range, n).map_values(
            as_planned,
        ));
    }
}

proof fn lemma_nothing_planned<N>(item_ix: usize, sizes: Seq<SizeRange<N>>, range: Range<usize>)
    requires
        range.end <= range.start,
    ensures
        text_plan(item_ix, sizes, range).len() == 0,
    decreases sizes.len(),
{
    if sizes.len() > 0 {
        lemma_nothing_planned(item_ix, sizes.drop_last(), range);
    }
}

/// How wide the atom of item `ix` is.
spec fn atom_width<K: Kit>(
    items: Seq<ItemView<K>>,
    image_sizes: Seq<Option<Size<K::Num>>>,
    objects: Seq<Option<MeasuredInlineObject<K>>>,
    ix: int,
) -> K::Num {
    if items[ix] is Image {
        image_sizes[ix]->0.width
    } else {
        objects[ix]->0.metrics.size.width
    }
}

/// What a line of atoms holds for the line wrapper is its atoms.
proof fn lemma_atoms_are_handed_over<K: Kit, B: Backend<K>>(
    backend: &B,
    typography: &InlineFlowTypography<K>,
    items: Seq<ItemView<K>>,
    image_sizes: Seq<Option<Size<K::Num>>>,
    objects: Seq<Option<MeasuredInlineObject<K>>>,
    wrap_width: K::Num,
    line: Range<usize>,
    groups: Seq<Seq<WrapView<K::Num>>>,
    n: int,
)
    requires
        0 <= n <= items.len(),
        groups.len() == items.len(),
        flow_len(items) <= usize::MAX,
        line.start <= line.end,
        atoms_only(items, line),
        is_item_groups(
            backend,
            typography,
            items,
            image_sizes,
            objects,
            wrap_width,
            line,
            groups,
        ),
    ensures
        groups.take(n).flatten() == atoms_in(items, line, n).map_values(
            |ix: int|
                WrapView::Element { width: atom_width(items, image_sizes, objects, ix), len: 1 },
        ),
    decreases n,
{
    let as_element = |ix: int|
        WrapView::Element { width: atom_width(items, image_sizes, objects, ix), len: 1 };
    if n > 0 {
        lemma_atoms_are_handed_over(
            backend,
            typography,
            items,
            image_sizes,
            objects,
            wrap_width,
            line,
            groups,
            n - 1,
        );
        lemma_offset_step(items, n - 1);
        lemma_offset_monotone(items, n - 1, n);
        let added = groups[n - 1];
        assert(is_item_fragments(
            backend,
            typography,
            items,
            image_sizes,
            objects,
            wrap_width,
            line,
            n - 1,
            added,
        ));
        assert(groups.take(n) =~= groups.take(n - 1).push(added));
        groups.take(n - 1).lemma_flatten_push(added);
        assert(groups.take(n).flatten() =~= atoms_in(items, line, n).map_values(as_element));
    } else {
        assert(groups.take(0).flatten() =~= Seq::empty());
        assert(groups.take(n).flatten() =~= atoms_in(items, line, n).map_values(as_element));
    }
}

proof fn lemma_same_widths<K: Kit>(line: LineView<K>, elements: Seq<WrapView<K::Num>>, n: int)
    requires
        0 <= n <= line.fragments.len(),
        n <= elements.len(),
        forall|j: int|
            #![trigger elements[j]]
            0 <= j < n ==> elements[j] == (WrapView::Element {
                width: line.fragments[j].size.width,
                len: 1,
            }),
    ensures
        width_of_elements(elements.take(n)) == width_of_first(line, n),
    decreases n,
{
    if n > 0 {
        lemma_same_widths(line, elements, n - 1);
        assert(elements.take(n).drop_last() =~= elements.take(n - 1));
        assert(elements.take(n).last() == elements[n - 1]);
    } else {
        assert(elements.take(0).len() == 0);
    }
}

/// A stretch of a line of images and objects is laid out as wide as the line
/// wrapper was told: element by element its fragments are as wide, and so is
/// all of it.
pub proof fn law_atoms_take_the_width_they_wrap_with<K: Kit, B: Backend<K>>(
    backend: &B,
    typography: &InlineFlowTypography<K>,
    line_height: K::Num,
    items: Seq<ItemView<K>>,
    image_sizes: Seq<Option<Size<K::Num>>>,
    objects: Seq<Option<MeasuredInlineObject<K>>>,
    sizes: Seq<Seq<SizeRange<K::Num>>>,
    wrap_width: K::Num,
    line: Range<usize>,
    out: Seq<WrapView<K::Num>>,
    piece: Range<usize>,
    laid: LineView<K>,
)
    requires
        items.len() <= usize::MAX,
        flow_len(items) <= usize::MAX,
        line.start <= piece.start <= piece.end <= line.end <= flow_len(items),
        atoms_only(items, line),
        is_line_fragments(
            backend,
            typography,
            items,
            image_sizes,
            objects,
            wrap_width,
            line,
            out,
        ),
        is_line(
            backend,
            typography,
            line_height,
            items,
            image_sizes,
            objects,
            sizes,
            piece,
            laid,
        ),
    ensures
        out.len() == line.end - line.start,
        laid.fragments.len() == piece.end - piece.start,
        forall|j: int|
            #![trigger out[j]]
            piece.start - line.start <= j < piece.end - line.start ==> out[j]
                == (WrapView::Element {
                width: laid.fragments[j - (piece.start - line.start)].size.width,
                len: 1,
            }),
        laid.width() == width_of_elements(
            out.subrange(piece.start - line.start, piece.end - line.start),
        ),
{
    let n = items.len() as int;
    let by = piece.start - line.start;
    let groups = choose|groups: Seq<Seq<WrapView<K::Num>>>|
        groups.len() == items.len() && out == groups.flatten() && #[trigger] is_item_groups(
            backend,
            typography,
            items,
            image_sizes,
            objects,
            wrap_width,
            line,
            groups,
        );
    assert(atoms_only(items, piece)) by {
        assert forall|ix: int|
            #![trigger items[ix]]
            0 <= ix < items.len() && items[ix] is Text implies items[ix].len() == 0 || offset(
            items,
            ix + 1,
        ) <= piece.start || offset(items, ix) >= piece.end by {}
    }
    lemma_offset_ends(items);
    lemma_atoms_in(items, line, n);
    lemma_atoms_in(items, piece, n);
    lemma_atoms_are_planned(items, sizes, piece, n);
    lemma_atoms_are_handed_over(
        backend,
        typography,
        items,
        image_sizes,
        objects,
        wrap_width,
        line,
        groups,
        n,
    );
    assert(groups.take(n) =~= groups);
    let (all, some) = (atoms_in(items, line, n), atoms_in(items, piece, n));
    let plan = line_plan(items, sizes, piece);
    assert(laid.fragments.len() == plan.len());
    assert forall|j: int| #![trigger out[j]] by <= j < by + some.len() implies out[j] == (
    WrapView::Element { width: laid.fragments[j - by].size.width, len: 1 }) by {
        let (a, b) = (all[j], some[j - by]);
        lemma_atoms_are_apart(items, a, b);
        assert(plan[j - by] == PlannedFragment::<K::Num>::Atom { item_ix: b as usize });
        assert(is_fragment(
            backend,
            typography,
            line_height,
            laid.body_baseline,
            items,
            image_sizes,
            objects,
            plan[j - by],
            laid.fragments[j - by],
        ));
    }
    let part = out.subrange(by, by + some.len());
    assert forall|j: int| #![trigger part[j]] 0 <= j < some.len() implies part[j] == (
    WrapView::Element { width: laid.fragments[j].size.width, len: 1 }) by {
        assert(part[j] == out[by + j]);
    }
    lemma_same_widths(laid, part, some.len() as int);
    assert(part.take(some.len() as int) =~= part);
}

/// Whether fragments are elements of one unit each.
pub open spec fn unit_elements<N>(fragments: Seq<WrapView<N>>) -> bool {
    forall|j: int|
        #![trigger fragments[j]]
        0 <= j < fragments.len() ==> (fragments[j] matches WrapView::Element { len, .. } && len
            == 1)
}

/// Whether the window breaks lines of elements so that they fit: breaks come in
/// order, and what stands between one break and the next is at most
/// `wrap_width` wide, unless it is a single element.
pub open spec fn wraps_to_fit<'a, K: Kit, B: Backend<K>>(
    backend: &B,
    style: Arc<K::TextStyle>,
    font_size: K::Num,
    wrap_width: K::Num,
) -> bool {
    forall|fragments: Vec<WrapFragment<'a, K::Num>>, breaks: Vec<usize>| #[trigger]
        call_ensures(
            B::wrap_line,
            (backend, &fragments, &style, font_size, wrap_width),
            breaks,
        ) && unit_elements(wrap_views(fragments@)) ==> fitting_breaks(
            wrap_views(fragments@),
            breaks@,
            wrap_width,
        )
}

/// Whether each stretch of elements between two breaks that follow each other
/// fits `wrap_width` or is a single element.
pub open spec fn fitting_breaks<N: Number>(
    fragments: Seq<WrapView<N>>,
    breaks: Seq<usize>,
    wrap_width: N,
) -> bool {
    &&& in_order(breaks)
    &&& forall|a: int, b: int|
        #![trigger fragments.subrange(a, b)]
        0 <= a && a + 1 < b <= fragments.len() && (a == 0 || breaks.contains(a as usize)) && (b
            == fragments.len() || breaks.contains(b as usize)) && (forall|j: int|
            0 <= j < breaks.len() ==> !(a < #[trigger] breaks[j] < b)) ==> width_of_elements(
            fragments.subrange(a, b),
        ).spec_at_most(wrap_width)
}

/// The size of the text of a flow in pixels.
pub open spec fn text_pixels<K: Kit>(typography: InlineFlowTypography<K>) -> K::Num {
    match typography.font_size {
        AbsoluteLength::Pixels(pixels) => pixels,
        AbsoluteLength::Rems(rems) => typography.rem_size.spec_times(rems),
    }
}

proof fn lemma_atoms_do_not_break<K: Kit>(items: Seq<ItemView<K>>, at: int)
    requires
        forall|ix: int| #![trigger items[ix]] 0 <= ix < items.len() ==> !(items[ix] is Text),
        0 <= at < flow_len(items),
    ensures
        !breaks_at(flow_content(items), at),
    decreases items.len(),
{
    let before = items.drop_last();
    lemma_offset_ends(items);
    if items.len() > 0 {
        let n = items.len() - 1;
        assert(flow_content(items) == flow_content(before) + content(items[n]));
        if at < flow_len(before) {
            assert forall|ix: int| #![trigger before[ix]] 0 <= ix < before.len() implies !(
            before[ix] is Text) by {
                assert(before[ix] == items[ix]);
            }
            lemma_atoms_do_not_break(before, at);
            assert(flow_content(items)[at] == flow_content(before)[at]);
        } else {
            assert(flow_content(items)[at] == content(items[n])[at - flow_len(before)]);
        }
    }
}

/// A flow of images and objects is one hard line.
pub proof fn lemma_atoms_are_one_line<K: Kit>(items: Seq<ItemView<K>>, lines: Seq<Range<usize>>)
    requires
        forall|ix: int| #![trigger items[ix]] 0 <= ix < items.len() ==> !(items[ix] is Text),
        flow_len(items) <= usize::MAX,
        is_hard_lines(flow_content(items), lines),
    ensures
        lines.len() == 1,
        lines[0].start == 0,
        lines[0].end == flow_len(items),
{
    if lines.len() > 1 {
        let end = lines[0].end as int;
        assert(lines[1].start == end + 1);
        lemma_atoms_do_not_break(items, end);
        assert(breaks_at(flow_content(items), end));
    }
}

/// Where the window breaks so that what it is handed fits, a flow of images
/// and objects fits: each of its lines is at most the wrap width wide, unless a
/// single image or object stands on it.
pub proof fn law_wrapped_atoms_fit<K: Kit, B: Backend<K>>(
    backend: &B,
    typography: &InlineFlowTypography<K>,
    items: Seq<ItemView<K>>,
    image_sizes: Seq<Option<Size<K::Num>>>,
    prepared: Seq<Option<MeasuredInlineObject<K>>>,
    wrap_width: K::Num,
    answers: FlowAnswers<K>,
    n: int,
)
    requires
        items.len() <= usize::MAX,
        flow_len(items) <= usize::MAX,
        forall|ix: int| #![trigger items[ix]] 0 <= ix < items.len() ==> !(items[ix] is Text),
        wraps_to_fit::<K, B>(
            backend,
            typography.text_style,
            text_pixels(*typography),
            wrap_width,
        ),
        is_answers(
            backend,
            typography,
            items,
            image_sizes,
            prepared,
            Some(wrap_width),
            answers,
        ),
        0 <= n < answers.lines.len(),
    ensures
        answers.lines[n].fragments.len() <= 1 || answers.lines[n].width().spec_at_most(wrap_width),
{
    let objects = answers.objects;
    let (lines, groups) = choose|lines: Seq<Range<usize>>, groups: Seq<Seq<Range<usize>>>|
        answers.ranges == groups.flatten() && #[trigger] is_hard_lines(flow_content(items), lines)
            && #[trigger] is_wrapped_lines(
            backend,
            typography,
            items,
            image_sizes,
            objects,
            wrap_width,
            lines,
            groups,
        );
    lemma_atoms_are_one_line(items, lines);
    let line = lines[0];
    assert(groups =~= seq![groups[0]]);
    groups.lemma_flatten_one_element();
    assert(answers.ranges == groups[0]);
    assert(is_wrapped_line(
        backend,
        typography,
        items,
        image_sizes,
        objects,
        wrap_width,
        line,
        groups[0],
    ));
    lemma_wrapped_piece_fits(
        backend,
        typography,
        answers.line_height,
        items,
        image_sizes,
        objects,
        answers.sizes,
        wrap_width,
        line,
        groups[0],
        n,
        answers.lines[n],
    );
}

/// What a line of atoms holds for the line wrapper is elements of one unit.
proof fn lemma_atoms_are_unit_elements<K: Kit, B: Backend<K>>(
    backend: &B,
    typography: &InlineFlowTypography<K>,
    items: Seq<ItemView<K>>,
    image_sizes: Seq<Option<Size<K::Num>>>,
    objects: Seq<Option<MeasuredInlineObject<K>>>,
    wrap_width: K::Num,
    line: Range<usize>,
    out: Seq<WrapView<K::Num>>,
)
    requires
        flow_len(items) <= usize::MAX,
        line.start <= line.end,
        atoms_only(items, line),
        is_line_fragments(
            backend,
            typography,
            items,
            image_sizes,
            objects,
            wrap_width,
            line,
            out,
        ),
    ensures
        unit_elements(out),
{
    let groups = choose|groups: Seq<Seq<WrapView<K::Num>>>|
        groups.len() == items.len() && out == groups.flatten() && #[trigger] is_item_groups(
            backend,
            typography,
            items,
            image_sizes,
            objects,
            wrap_width,
            line,
            groups,
        );
    lemma_atoms_are_handed_over(
        backend,
        typography,
        items,
        image_sizes,
        objects,
        wrap_width,
        line,
        groups,
        items.len() as int,
    );
    assert(groups.take(items.len() as int) =~= groups);
}

/// A piece of a line lies in it, between two breaks that follow each other.
proof fn lemma_cut_piece(line: Range<usize>, breaks: Seq<usize>, n: int)
    requires
        in_order(breaks),
        line.start <= line.end,
        0 <= n < pieces(line, breaks).len(),
    ensures
        ({
            let piece = pieces(line, breaks)[n];
            &&& line.start <= piece.start <= piece.end <= line.end
            &&& piece.start == line.start || breaks.contains((piece.start - line.start) as usize)
            &&& piece.end == line.end || breaks.contains((piece.end - line.start) as usize)
            &&& forall|j: int|
                0 <= j < breaks.len() ==> !(piece.start - line.start < #[trigger] breaks[j]
                    < piece.end - line.start)
        }),
{
    law_cut_covers_line(line, breaks);
    law_line_is_cut_at_its_breaks(line, breaks, n);
    lemma_piece_in_line(pieces(line, breaks), line, n);
}

proof fn lemma_wrapped_piece_fits<'a, K: Kit, B: Backend<K>>(
    backend: &B,
    typography: &InlineFlowTypography<K>,
    line_height: K::Num,
    items: Seq<ItemView<K>>,
    image_sizes: Seq<Option<Size<K::Num>>>,
    objects: Seq<Option<MeasuredInlineObject<K>>>,
    sizes: Seq<Seq<SizeRange<K::Num>>>,
    wrap_width: K::Num,
    line: Range<usize>,
    cut: Seq<Range<usize>>,
    n: int,
    laid: LineView<K>,
)
    requires
        items.len() <= usize::MAX,
        flow_len(items) <= usize::MAX,
        forall|ix: int| #![trigger items[ix]] 0 <= ix < items.len() ==> !(items[ix] is Text),
        wraps_to_fit::<K, B>(
            backend,
            typography.text_style,
            text_pixels(*typography),
            wrap_width,
        ),
        line.start == 0,
        line.end == flow_len(items),
        is_wrapped_line::<K, B>(
            backend,
            typography,
            items,
            image_sizes,
            objects,
            wrap_width,
            line,
            cut,
        ),
        0 <= n < cut.len(),
        is_line(
            backend,
            typography,
            line_height,
            items,
            image_sizes,
            objects,
            sizes,
            cut[n],
            laid,
        ),
    ensures
        laid.fragments.len() <= 1 || laid.width().spec_at_most(wrap_width),
{
    let (fragments, breaks) = choose|fragments: Vec<WrapFragment<'a, K::Num>>, breaks: Vec<usize>|
        is_line_fragments(
            backend,
            typography,
            items,
            image_sizes,
            objects,
            wrap_width,
            line,
            wrap_views(fragments@),
        ) && wrap_len(wrap_views(fragments@)) == line.end - line.start && #[trigger] call_ensures(
            B::wrap_line,
            (
                backend,
                &fragments,
                &typography.text_style,
                typography.spec_font_pixels(),
                wrap_width,
            ),
            breaks,
        ) && cut == pieces(line, breaks@);
    let out = wrap_views(fragments@);
    assert(atoms_only(items, line));
    lemma_atoms_are_unit_elements(
        backend,
        typography,
        items,
        image_sizes,
        objects,
        wrap_width,
        line,
        out,
    );
    assert(fitting_breaks(out, breaks@, wrap_width));
    lemma_cut_piece(line, breaks@, n);
    let piece = cut[n];
    law_atoms_take_the_width_they_wrap_with(
        backend,
        typography,
        line_height,
        items,
        image_sizes,
        objects,
        sizes,
        wrap_width,
        line,
        out,
        piece,
        laid,
    );
    if laid.fragments.len() > 1 {
        assert(width_of_elements(
            out.subrange(piece.start as int, piece.end as int),
        ).spec_at_most(wrap_width));
    }
}

proof fn lemma_piece_in_line(cut: Seq<Range<usize>>, line: Range<usize>, n: int)
    requires
        tiles(cut, line.start as int, line.end as int),
        line.start <= line.end,
        0 <= n < cut.len(),
    ensures
        line.start <= cut[n].start <= cut[n].end <= line.end,
    decreases cut.len(),
{
    let before = cut.drop_last();
    lemma_tiles_prefix(cut, line.start as int, line.end as int);
    if n < before.len() {
        let shorter = Range { start: line.start, end: cut.last().start };
        lemma_start_in_line(cut, line, cut.len() - 1);
        lemma_piece_in_line(before, shorter, n);
        assert(before[n] == cut[n]);
    } else {
        lemma_start_in_line(cut, line, n);
    }
}

proof fn lemma_start_in_line(cut: Seq<Range<usize>>, line: Range<usize>, n: int)
    requires
        tiles(cut, line.start as int, line.end as int),
        0 <= n < cut.len(),
    ensures
        line.start <= cut[n].start,
    decreases n,
{
    if n > 0 {
        lemma_start_in_line(cut, line, n - 1);
        assert(cut[n - 1].start <= cut[n - 1].end);
        assert(cut[n - 1].end == cut[n].start);
    }
}

/// Where the window breaks so that what it is handed fits, a flow of images
/// and objects that each fit by themselves is at most the wrap width wide.
pub proof fn law_flow_of_atoms_fits<K: Kit<Num = Fixed>, B: Backend<K>>(
    backend: &B,
    typography: &InlineFlowTypography<K>,
    items: Seq<ItemView<K>>,
    image_sizes: Seq<Option<Size<Fixed>>>,
    prepared: Seq<Option<MeasuredInlineObject<K>>>,
    wrap_width: Fixed,
    out: LayoutView<K>,
)
    requires
        items.len() <= usize::MAX,
        flow_len(items) <= usize::MAX,
        wrap_width.raw >= 0,
        atoms_measured(items, image_sizes, prepared),
        forall|ix: int|
            #![trigger items[ix]]
            0 <= ix < items.len() ==> match items[ix] {
                ItemView::Text { .. } => false,
                ItemView::Image { .. } => image_sizes[ix]->0.width.raw <= wrap_width.raw,
                ItemView::Object { .. } => forall|fitted: MeasuredInlineObject<K>| #[trigger]
                    call_ensures(B::fit_text, (backend, &prepared[ix]->0, Some(wrap_width)), fitted)
                        ==> fitted.metrics.size.width.raw <= wrap_width.raw,
            },
        wraps_to_fit::<K, B>(
            backend,
            typography.text_style,
            text_pixels(*typography),
            wrap_width,
        ),
        is_layout(backend, typography, items, image_sizes, prepared, Some(wrap_width), out),
    ensures
        out.size.width.raw <= wrap_width.raw,
{
    if flow_len(items) > 0 {
        let answers = choose|answers: FlowAnswers<K>| #[trigger]
            is_answers(
                backend,
                typography,
                items,
                image_sizes,
                prepared,
                Some(wrap_width),
                answers,
            ) && out == layout_of_lines(answers.lines, Some(wrap_width));
        let lines = answers.lines;
        assert forall|n: int| #![trigger lines[n]] 0 <= n < lines.len() implies lines[n].width().spec_at_most(
            wrap_width,
        ) by {
            law_wrapped_atoms_fit(
                backend,
                typography,
                items,
                image_sizes,
                prepared,
                wrap_width,
                answers,
                n,
            );
            let line = lines[n];
            reveal_with_fuel(width_of_first, 2);
            if line.fragments.len() == 1 {
                let plan = line_plan(items, answers.sizes, answers.ranges[n]);
                assert(is_line(
                    backend,
                    typography,
                    answers.line_height,
                    items,
                    image_sizes,
                    answers.objects,
                    answers.sizes,
                    answers.ranges[n],
                    line,
                ));
                assert(is_fragment(
                    backend,
                    typography,
                    answers.line_height,
                    line.body_baseline,
                    items,
                    image_sizes,
                    answers.objects,
                    plan[0],
                    line.fragments[0],
                ));
                lemma_plan_of_first(
                    items,
                    answers.sizes,
                    answers.ranges[n],
                    items.len() as int,
                );
                let ix = plan[0]->Atom_item_ix as int;
                assert(!(items[ix] is Text));
                if items[ix] is Object {
                    assert(prepared[ix] is Some);
                    assert(answers.objects[ix] is Some);
                }
            }
        }
        law_flow_fits_where_its_lines_do(lines, Some(wrap_width), wrap_width);
    }
}

/// A group stands in a flattened list after those before it.
proof fn lemma_place_in_flattened<T>(groups: Seq<Seq<T>>, ix: int)
    requires
        0 <= ix < groups.len(),
    ensures
        ({
            let from = groups.take(ix).flatten().len() as int;
            let to = from + groups[ix].len();
            &&& to <= groups.flatten().len()
            &&& groups.flatten().take(from) == groups.take(ix).flatten()
            &&& groups.flatten().take(to) == groups.take(ix + 1).flatten()
            &&& groups.flatten().subrange(from, to) == groups[ix]
        }),
{
    let (head, own) = (groups.take(ix), groups[ix]);
    assert(groups.take(ix + 1) =~= head.push(own));
    head.lemma_flatten_push(own);
    assert(groups.take(ix + 1) + groups.skip(ix + 1) =~= groups);
    lemma_flatten_concat(groups.take(ix + 1), groups.skip(ix + 1));
    let from = head.flatten().len() as int;
    let to = from + own.len();
    assert(groups.flatten().take(from) =~= head.flatten());
    assert(groups.flatten().take(to) =~= groups.take(ix + 1).flatten());
    assert(groups.flatten().subrange(from, to) =~= own);
}

/// What each item puts into a line for the line wrapper stands there at the
/// place of the item: after as many units as the item is into the line. An
/// image or object is one element there, as wide as its fragment; a text is
/// fragments that cut its part in the line.
pub proof fn law_items_enter_the_wrapper_in_place<K: Kit, B: Backend<K>>(
    backend: &B,
    typography: &InlineFlowTypography<K>,
    line_height: K::Num,
    body_baseline: K::Num,
    items: Seq<ItemView<K>>,
    image_sizes: Seq<Option<Size<K::Num>>>,
    objects: Seq<Option<MeasuredInlineObject<K>>>,
    wrap_width: K::Num,
    line: Range<usize>,
    out: Seq<WrapView<K::Num>>,
    ix: int,
) -> (at: (int, int))
    requires
        items.len() <= usize::MAX,
        flow_len(items) <= usize::MAX,
        is_hard_line(flow_content(items), line),
        is_line_fragments(
            backend,
            typography,
            items,
            image_sizes,
            objects,
            wrap_width,
            line,
            out,
        ),
        0 <= ix < items.len(),
        reaches(items, ix, line),
    ensures
        0 <= at.0 <= at.1 <= out.len(),
        line.start + wrap_len(out.take(at.0)) == between(
            line.start as int,
            offset(items, ix),
            line.end as int,
        ),
        line.start + wrap_len(out.take(at.1)) == between(
            line.start as int,
            offset(items, ix + 1),
            line.end as int,
        ),
        items[ix] matches ItemView::Text { text, .. } ==> {
            let from = between(line.start as int, offset(items, ix), line.end as int);
            let to = between(line.start as int, offset(items, ix + 1), line.end as int);
            from < to ==> cuts(
                out.subrange(at.0, at.1),
                text_slice(text, from - offset(items, ix), to - offset(items, ix)),
            )
        },
        !(items[ix] is Text) ==> forall|fragment: FragmentView<K>| #[trigger]
            is_fragment(
                backend,
                typography,
                line_height,
                body_baseline,
                items,
                image_sizes,
                objects,
                PlannedFragment::Atom { item_ix: ix as usize },
                fragment,
            ) ==> out.subrange(at.0, at.1) == seq![
                WrapView::Element { width: fragment.size.width, len: 1 },
            ],
{
    let groups = choose|groups: Seq<Seq<WrapView<K::Num>>>|
        groups.len() == items.len() && out == groups.flatten() && #[trigger] is_item_groups(
            backend,
            typography,
            items,
            image_sizes,
            objects,
            wrap_width,
            line,
            groups,
        );
    let own = groups[ix];
    lemma_groups_len(
        backend,
        typography,
        items,
        image_sizes,
        objects,
        wrap_width,
        line,
        groups,
        ix,
    );
    lemma_groups_len(
        backend,
        typography,
        items,
        image_sizes,
        objects,
        wrap_width,
        line,
        groups,
        ix + 1,
    );
    lemma_place_in_flattened(groups, ix);
    let from = groups.take(ix).flatten().len() as int;
    let to = from + own.len();
    lemma_offset_step(items, ix);
    lemma_offset_monotone(items, ix, ix + 1);
    assert(is_item_fragments(
        backend,
        typography,
        items,
        image_sizes,
        objects,
        wrap_width,
        line,
        ix,
        own,
    ));
    (from, to)
}

proof fn lemma_groups_len<K: Kit, B: Backend<K>>(
    backend: &B,
    typography: &InlineFlowTypography<K>,
    items: Seq<ItemView<K>>,
    image_sizes: Seq<Option<Size<K::Num>>>,
    objects: Seq<Option<MeasuredInlineObject<K>>>,
    wrap_width: K::Num,
    line: Range<usize>,
    groups: Seq<Seq<WrapView<K::Num>>>,
    n: int,
)
    requires
        0 <= n <= items.len(),
        groups.len() == items.len(),
        flow_len(items) <= usize::MAX,
        is_hard_line(flow_content(items), line),
        is_item_groups(
            backend,
            typography,
            items,
            image_sizes,
            objects,
            wrap_width,
            line,
            groups,
        ),
    ensures
        line.start + wrap_len(groups.take(n).flatten()) == between(
            line.start as int,
            offset(items, n),
            line.end as int,
        ),
    decreases n,
{
    lemma_offset_ends(items);
    if n == 0 {
        assert(groups.take(0).flatten() =~= Seq::empty());
    } else {
        lemma_groups_len(
            backend,
            typography,
            items,
            image_sizes,
            objects,
            wrap_width,
            line,
            groups,
            n - 1,
        );
        let added = groups[n - 1];
        assert(is_item_fragments(
            backend,
            typography,
            items,
            image_sizes,
            objects,
            wrap_width,
            line,
            n - 1,
            added,
        ));
        assert(groups.take(n) =~= groups.take(n - 1).push(added));
        groups.take(n - 1).lemma_flatten_push(added);
        lemma_wrap_len_append(groups.take(n - 1).flatten(), added);
        lemma_offset_step(items, n - 1);
        lemma_offset_monotone(items, n - 1, n);
        reveal_with_fuel(wrap_len, 2);
        if reaches(items, n - 1, line) {
            if let ItemView::Text { text, .. } = items[n - 1] {
                let range = local_range(items, n - 1, line);
                if range.start < range.end {
                    lemma_local_line(items, n - 1, line);
                    lemma_cuts_len(
                        added,
                        text_slice(text, range.start as int, range.end as int),
                    );
                    lemma_slice_bytes(text, range.start as int, range.end as int);
                }
            }
        }
    }
}

} // verus!
