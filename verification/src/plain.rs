//! Plain text, in a window that answers alike whenever it is asked alike.

use std::ops::Range;

use vstd::prelude::*;
use vstd::utf8::{encode_utf8, is_ascii_chars, is_ascii_chars_encode_utf8};

use crate::backend::{Backend, InlineFlowTypography, MeasuredInlineObject, ShapedLine};
use crate::content::{
    breaks_at, content, flow_content, flow_len, is_hard_lines, law_hard_lines_are_unique,
    lemma_offset_ends, offset, text_units, unbroken, Unit, NEWLINE,
};
use crate::coverage::{
    layout_units, lemma_answers_show_flow, lemma_without_breaks_append, sizes_cover, stretches,
    without_breaks,
};
use crate::fragment::{
    is_fragment, is_shaped, is_text_answer, is_text_fragment, item_plan, line_plan, plan_of_first,
    text_fragment, text_plan, FragmentView, PlannedFragment, SizeRange, TextAnswer,
};
use crate::geometry::Size;
use crate::image::is_image_sizes;
use crate::item::ItemView;
use crate::kit::Kit;
use crate::layout::{
    ascent_of_first, descent_of_first, is_answers, is_body, is_drawn_layout, is_intrinsic_width,
    is_layout, is_line, is_prepared, is_sizes, layout_of_lines, placed_lines, top_after, widest,
    width_of_first, FlowAnswers, LayoutView, LineView,
};
use crate::marks::InlineHighlight;
use crate::number::{larger_is_join, Fixed, Number};
use crate::placement::law_line_holds_its_body;
use crate::text::{byte_len, lemma_encode_append};
use crate::wrap::{local_range, reaches};

verus! {

/// A flow of one text without links and highlights.
pub open spec fn plain_flow<K: Kit>(text: Seq<char>) -> Seq<ItemView<K>> {
    seq![ItemView::Text { text, links: Seq::empty(), highlights: Seq::empty() }]
}

/// A line feed as a text.
pub open spec fn line_feed() -> Seq<char> {
    seq!['\n']
}

/// The bytes `range` of `text`.
pub open spec fn bytes_in(text: Seq<char>, range: Range<usize>) -> Seq<u8> {
    encode_utf8(text).subrange(range.start as int, range.end as int)
}

/// Whether the window answers alike: it snaps a length to one length, it
/// shapes the same bytes in the same way wherever they stand, and it takes
/// text without highlights to be of one size, with the factor `scale`.
pub open spec fn answers_alike<K: Kit, B: Backend<K>>(
    backend: &B,
    typography: &InlineFlowTypography<K>,
    scale: K::Num,
) -> bool {
    &&& forall|length: K::Num, a: K::Num, b: K::Num| #[trigger]
        call_ensures(B::pixel_snap, (backend, length), a) && #[trigger] call_ensures(
            B::pixel_snap,
            (backend, length),
            b,
        ) ==> a == b
    &&& forall|
        text: Seq<char>,
        range: Range<usize>,
        other: Seq<char>,
        other_range: Range<usize>,
        font_size: K::Num,
        a: ShapedLine<K::Num>,
        b: ShapedLine<K::Num>,
    | #[trigger]
        is_shaped(backend, typography, text, range, font_size, Seq::empty(), a)
            && #[trigger] is_shaped(
            backend,
            typography,
            other,
            other_range,
            font_size,
            Seq::empty(),
            b,
        ) && bytes_in(text, range) == bytes_in(other, other_range) ==> a == b
    &&& forall|text: Seq<char>, sizes: Seq<SizeRange<K::Num>>|
        byte_len(text) > 0 && #[trigger] is_sizes(backend, plain_flow::<K>(text)[0], sizes)
            ==> sizes == seq![(Range { start: 0usize, end: byte_len(text) as usize }, scale)]
}

/// Whether two lines are of the same boxes on the same body.
pub open spec fn lines_alike<K: Kit>(a: LineView<K>, b: LineView<K>) -> bool {
    &&& a.body_height == b.body_height
    &&& a.body_baseline == b.body_baseline
    &&& a.fragments.len() == b.fragments.len()
    &&& forall|i: int|
        #![trigger a.fragments[i]]
        #![trigger b.fragments[i]]
        0 <= i < a.fragments.len() ==> a.fragments[i].size == b.fragments[i].size
            && a.fragments[i].baseline == b.fragments[i].baseline
}

proof fn lemma_alike_of_first<K: Kit>(a: LineView<K>, b: LineView<K>, n: int)
    requires
        lines_alike(a, b),
        0 <= n <= a.fragments.len(),
    ensures
        ascent_of_first(a, n) == ascent_of_first(b, n),
        descent_of_first(a, n) == descent_of_first(b, n),
        width_of_first(a, n) == width_of_first(b, n),
    decreases n,
{
    if n > 0 {
        lemma_alike_of_first(a, b, n - 1);
    }
}

/// Lines alike are of one height and one width.
proof fn lemma_alike_extent<K: Kit>(a: LineView<K>, b: LineView<K>)
    requires
        lines_alike(a, b),
    ensures
        a.height() == b.height(),
        a.width() == b.width(),
{
    lemma_alike_of_first(a, b, a.fragments.len() as int);
}

/// The units of a flow of plain text.
proof fn lemma_plain_content<K: Kit>(text: Seq<char>)
    ensures
        flow_content(plain_flow::<K>(text)) == text_units(encode_utf8(text)),
        flow_len(plain_flow::<K>(text)) == byte_len(text),
        offset(plain_flow::<K>(text), 0) == 0,
        offset(plain_flow::<K>(text), 1) == byte_len(text),
{
    let items = plain_flow::<K>(text);
    assert(items.drop_last() =~= Seq::empty());
    assert(flow_content(items.drop_last()) =~= Seq::empty());
    assert(flow_content(items) =~= content(items[0]));
    lemma_offset_ends(items);
}

/// A line of plain text is one fragment, or none where it is blank.
proof fn lemma_plain_line<K: Kit, B: Backend<K>>(
    backend: &B,
    typography: &InlineFlowTypography<K>,
    line_height: K::Num,
    scale: K::Num,
    text: Seq<char>,
    image_sizes: Seq<Option<Size<K::Num>>>,
    objects: Seq<Option<MeasuredInlineObject<K>>>,
    sizes: Seq<Seq<SizeRange<K::Num>>>,
    range: Range<usize>,
    line: LineView<K>,
)
    requires
        byte_len(text) <= usize::MAX,
        range.start <= range.end <= byte_len(text),
        sizes.len() == 1,
        sizes[0] == seq![(Range { start: 0usize, end: byte_len(text) as usize }, scale)],
        is_line(
            backend,
            typography,
            line_height,
            plain_flow::<K>(text),
            image_sizes,
            objects,
            sizes,
            range,
            line,
        ),
    ensures
        line.fragments.len() == if range.start < range.end {
            1int
        } else {
            0int
        },
        range.start < range.end ==> is_text_fragment(
            backend,
            typography,
            line_height,
            0,
            text,
            Seq::empty(),
            Seq::empty(),
            range,
            scale,
            line.fragments[0],
        ),
{
    let items = plain_flow::<K>(text);
    lemma_plain_content::<K>(text);
    let plan = line_plan(items, sizes, range);
    let own = item_plan(items, sizes, range, 0);
    reveal_with_fuel(plan_of_first, 2);
    assert(plan =~= own);
    if reaches(items, 0, range) {
        assert(local_range(items, 0, range) == range);
        reveal_with_fuel(text_plan, 2);
        assert(sizes[0].drop_last() =~= Seq::empty());
        if range.start < range.end {
            assert(own =~= seq![
                PlannedFragment::Text { item_ix: 0, start: range.start, end: range.end, scale },
            ]);
            assert(is_fragment(
                backend,
                typography,
                line_height,
                line.body_baseline,
                items,
                image_sizes,
                objects,
                plan[0],
                line.fragments[0],
            ));
        } else {
            assert(own =~= Seq::empty());
        }
    }
}

/// Text of the same bytes makes fragments of the same box.
proof fn lemma_fragments_alike<K: Kit, B: Backend<K>>(
    backend: &B,
    typography: &InlineFlowTypography<K>,
    line_height: K::Num,
    scale: K::Num,
    text: Seq<char>,
    range: Range<usize>,
    a: FragmentView<K>,
    other: Seq<char>,
    other_range: Range<usize>,
    b: FragmentView<K>,
)
    requires
        answers_alike(backend, typography, scale),
        bytes_in(text, range) == bytes_in(other, other_range),
        is_text_fragment(
            backend,
            typography,
            line_height,
            0,
            text,
            Seq::empty(),
            Seq::empty(),
            range,
            scale,
            a,
        ),
        is_text_fragment(
            backend,
            typography,
            line_height,
            0,
            other,
            Seq::empty(),
            Seq::empty(),
            other_range,
            scale,
            b,
        ),
    ensures
        a.size == b.size,
        a.baseline == b.baseline,
{
    let none = Seq::<(Range<usize>, InlineHighlight<K>)>::empty();
    let x = choose|answer: TextAnswer<K::Num>| #[trigger]
        is_text_answer(
            backend,
            typography,
            line_height,
            text,
            none,
            range,
            scale,
            answer,
        ) && a == text_fragment(
            *typography,
            0,
            text,
            Seq::empty(),
            none,
            range,
            scale,
            answer,
        );
    let y = choose|answer: TextAnswer<K::Num>| #[trigger]
        is_text_answer(
            backend,
            typography,
            line_height,
            other,
            none,
            other_range,
            scale,
            answer,
        ) && b == text_fragment(
            *typography,
            0,
            other,
            Seq::empty(),
            none,
            other_range,
            scale,
            answer,
        );
    assert(x.shaped == y.shaped);
    assert(x.height == y.height);
}

/// The box of the body is one.
proof fn lemma_bodies_alike<K: Kit, B: Backend<K>>(
    backend: &B,
    typography: &InlineFlowTypography<K>,
    line_height: K::Num,
    scale: K::Num,
    a: LineView<K>,
    b: LineView<K>,
)
    requires
        answers_alike(backend, typography, scale),
        is_body(backend, typography, line_height, a.body_height, a.body_baseline),
        is_body(backend, typography, line_height, b.body_height, b.body_baseline),
    ensures
        a.body_height == b.body_height,
        a.body_baseline == b.body_baseline,
{
}

/// Lines of the same bytes are alike.
proof fn lemma_plain_lines_alike<K: Kit, B: Backend<K>>(
    backend: &B,
    typography: &InlineFlowTypography<K>,
    scale: K::Num,
    text: Seq<char>,
    a: FlowAnswers<K>,
    i: int,
    other: Seq<char>,
    b: FlowAnswers<K>,
    j: int,
)
    requires
        answers_alike(backend, typography, scale),
        plain_answers(backend, typography, scale, text, a),
        plain_answers(backend, typography, scale, other, b),
        0 <= i < a.ranges.len(),
        0 <= j < b.ranges.len(),
        a.ranges[i].end - a.ranges[i].start == b.ranges[j].end - b.ranges[j].start,
        bytes_in(text, a.ranges[i]) == bytes_in(other, b.ranges[j]),
    ensures
        lines_alike(a.lines[i], b.lines[j]),
        a.lines[i].height() == b.lines[j].height(),
        a.lines[i].width() == b.lines[j].width(),
{
    let (image_sizes, prepared) = choose|
        image_sizes: Seq<Option<Size<K::Num>>>,
        prepared: Seq<Option<MeasuredInlineObject<K>>>,
    | #[trigger]
        is_answers(
            backend,
            typography,
            plain_flow::<K>(text),
            image_sizes,
            prepared,
            None,
            a,
        );
    let (other_sizes, other_prepared) = choose|
        image_sizes: Seq<Option<Size<K::Num>>>,
        prepared: Seq<Option<MeasuredInlineObject<K>>>,
    | #[trigger]
        is_answers(
            backend,
            typography,
            plain_flow::<K>(other),
            image_sizes,
            prepared,
            None,
            b,
        );
    assert(a.line_height == b.line_height);
    let (x, y) = (a.lines[i], b.lines[j]);
    lemma_bodies_alike(backend, typography, a.line_height, scale, x, y);
    lemma_plain_content::<K>(text);
    lemma_plain_content::<K>(other);
    assert(a.ranges[i].start <= a.ranges[i].end <= byte_len(text));
    assert(b.ranges[j].start <= b.ranges[j].end <= byte_len(other));
    lemma_plain_line(
        backend,
        typography,
        a.line_height,
        scale,
        text,
        image_sizes,
        a.objects,
        a.sizes,
        a.ranges[i],
        x,
    );
    lemma_plain_line(
        backend,
        typography,
        b.line_height,
        scale,
        other,
        other_sizes,
        b.objects,
        b.sizes,
        b.ranges[j],
        y,
    );
    if a.ranges[i].start < a.ranges[i].end {
        lemma_fragments_alike(
            backend,
            typography,
            a.line_height,
            scale,
            text,
            a.ranges[i],
            x.fragments[0],
            other,
            b.ranges[j],
            y.fragments[0],
        );
    }
    assert(lines_alike(x, y));
    lemma_alike_extent(x, y);
}

/// Whether the window gave these answers for a text that is laid out plain and
/// unwrapped, the whole of it in one size.
spec fn plain_answers<K: Kit, B: Backend<K>>(
    backend: &B,
    typography: &InlineFlowTypography<K>,
    scale: K::Num,
    text: Seq<char>,
    answers: FlowAnswers<K>,
) -> bool {
    &&& 0 < byte_len(text) <= usize::MAX
    &&& exists|
        image_sizes: Seq<Option<Size<K::Num>>>,
        prepared: Seq<Option<MeasuredInlineObject<K>>>,
    | #[trigger]
        is_answers(
            backend,
            typography,
            plain_flow::<K>(text),
            image_sizes,
            prepared,
            None,
            answers,
        )
    &&& is_hard_lines(text_units(encode_utf8(text)), answers.ranges)
    &&& answers.lines.len() == answers.ranges.len()
    &&& answers.sizes.len() == 1
    &&& answers.sizes[0] == seq![
        (Range { start: 0usize, end: byte_len(text) as usize }, scale),
    ]
}

/// The answers behind a layout of plain text.
proof fn lemma_plain_answers<K: Kit, B: Backend<K>>(
    backend: &B,
    typography: &InlineFlowTypography<K>,
    scale: K::Num,
    text: Seq<char>,
    image_sizes: Seq<Option<Size<K::Num>>>,
    prepared: Seq<Option<MeasuredInlineObject<K>>>,
    out: LayoutView<K>,
) -> (answers: FlowAnswers<K>)
    requires
        answers_alike(backend, typography, scale),
        0 < byte_len(text) <= usize::MAX,
        is_layout(
            backend,
            typography,
            plain_flow::<K>(text),
            image_sizes,
            prepared,
            None,
            out,
        ),
    ensures
        plain_answers(backend, typography, scale, text, answers),
        out == layout_of_lines(answers.lines, None),
        layout_units(plain_flow::<K>(text), out.fragments) == without_breaks(
            text_units(encode_utf8(text)),
        ),
{
    let items = plain_flow::<K>(text);
    lemma_plain_content::<K>(text);
    let answers = choose|answers: FlowAnswers<K>| #[trigger]
        is_answers(backend, typography, items, image_sizes, prepared, None, answers) && out
            == layout_of_lines(answers.lines, None);
    assert(is_sizes(backend, items[0], answers.sizes[0]));
    assert(sizes_cover(items, answers.sizes)) by {
        assert(stretches(answers.sizes[0]).len() == 1);
        assert(stretches(answers.sizes[0])[0] == Range {
            start: 0usize,
            end: byte_len(text) as usize,
        });
    }
    lemma_answers_show_flow(
        backend,
        typography,
        items,
        image_sizes,
        prepared,
        None,
        answers,
    );
    answers
}

/// A hard line ends at every line break.
proof fn lemma_line_ends_at(flow: Seq<Unit>, lines: Seq<Range<usize>>, at: int, from: int) -> (k:
    int)
    requires
        is_hard_lines(flow, lines),
        0 <= from < lines.len(),
        lines[from].start <= at < flow.len(),
        breaks_at(flow, at),
    ensures
        from <= k < lines.len() - 1,
        lines[k].end == at,
    decreases lines.len() - from,
{
    assert(from == lines.len() - 1 ==> lines[from] == lines.last());
    if lines[from].end < at {
        assert(lines[from + 1].start == lines[from].end + 1);
        lemma_line_ends_at(flow, lines, at, from + 1)
    } else {
        if lines[from].end > at {
            assert(!breaks_at(flow, at));
        }
        from
    }
}

/// A range moved by `by`.
spec fn moved(range: Range<usize>, by: int) -> Range<usize> {
    Range { start: (range.start + by) as usize, end: (range.end + by) as usize }
}

proof fn lemma_line_feed()
    ensures
        encode_utf8(line_feed()) == seq![NEWLINE],
{
    assert(is_ascii_chars(line_feed()));
    is_ascii_chars_encode_utf8(line_feed());
    assert(encode_utf8(line_feed()) =~= seq![NEWLINE]);
}

/// The hard lines of a flow with one more line feed after the one at `at`: those
/// without it, with a blank one between.
spec fn lines_with_blank(lines: Seq<Range<usize>>, k: int) -> Seq<Range<usize>> {
    let at = lines[k].end;
    Seq::new(
        lines.len() + 1,
        |i: int|
            if i <= k {
                lines[i]
            } else if i == k + 1 {
                Range { start: (at + 1) as usize, end: (at + 1) as usize }
            } else {
                moved(lines[i - 1], 1)
            },
    )
}

/// Whether `more` is `flow` with the unit at `at` once more.
spec fn has_unit_twice(flow: Seq<Unit>, more: Seq<Unit>, at: int) -> bool {
    &&& 0 <= at < flow.len()
    &&& more.len() == flow.len() + 1
    &&& forall|i: int| #![trigger more[i]] 0 <= i <= at ==> more[i] == flow[i]
    &&& forall|i: int| #![trigger more[i]] at < i < more.len() ==> more[i] == flow[i - 1]
}

proof fn lemma_unbroken_moves(
    flow: Seq<Unit>,
    more: Seq<Unit>,
    at: int,
    start: int,
    end: int,
)
    requires
        has_unit_twice(flow, more, at),
        0 <= start <= end <= flow.len(),
        unbroken(flow, start, end),
    ensures
        end <= at ==> unbroken(more, start, end),
        at < start ==> unbroken(more, start + 1, end + 1),
{
    if end <= at {
        assert forall|p: int| start <= p < end implies !#[trigger] breaks_at(more, p) by {
            assert(!breaks_at(flow, p));
            assert(more[p] == flow[p]);
        }
    }
    if at < start {
        assert forall|p: int| start + 1 <= p < end + 1 implies !#[trigger] breaks_at(more, p) by {
            assert(!breaks_at(flow, p - 1));
            assert(more[p] == flow[p - 1]);
        }
    }
}

proof fn lemma_blank_line_inside(
    flow: Seq<Unit>,
    more: Seq<Unit>,
    lines: Seq<Range<usize>>,
    k: int,
    i: int,
)
    requires
        is_hard_lines(flow, lines),
        0 <= k < lines.len() - 1,
        has_unit_twice(flow, more, lines[k].end as int),
        more.len() <= usize::MAX,
        0 <= i <= lines.len(),
    ensures
        ({
            let line = lines_with_blank(lines, k)[i];
            line.start <= line.end <= more.len() && unbroken(
                more,
                line.start as int,
                line.end as int,
            )
        }),
{
    let at = lines[k].end as int;
    if i <= k {
        lemma_lines_apart(flow, lines, i, k);
        lemma_unbroken_moves(flow, more, at, lines[i].start as int, lines[i].end as int);
    } else if i > k + 1 {
        let own = lines[i - 1];
        lemma_lines_apart(flow, lines, k, i - 1);
        lemma_unbroken_moves(flow, more, at, own.start as int, own.end as int);
    }
}

proof fn lemma_blank_line_next(
    flow: Seq<Unit>,
    more: Seq<Unit>,
    lines: Seq<Range<usize>>,
    k: int,
    i: int,
)
    requires
        is_hard_lines(flow, lines),
        0 <= k < lines.len() - 1,
        has_unit_twice(flow, more, lines[k].end as int),
        more.len() <= usize::MAX,
        0 <= i < lines.len(),
    ensures
        breaks_at(more, lines_with_blank(lines, k)[i].end as int),
        lines_with_blank(lines, k)[i + 1].start == lines_with_blank(lines, k)[i].end + 1,
{
    let at = lines[k].end as int;
    assert(breaks_at(flow, at));
    if i < k {
        lemma_lines_apart(flow, lines, i, k);
        assert(breaks_at(flow, lines[i].end as int));
        assert(more[lines[i].end as int] == flow[lines[i].end as int]);
    } else if i == k {
        assert(more[at] == flow[at]);
    } else if i == k + 1 {
        assert(more[at + 1] == flow[at]);
        assert(lines[k + 1].start == at + 1);
        assert(lines[k + 1].end <= flow.len());
    } else {
        lemma_lines_apart(flow, lines, k, i - 1);
        let end = lines[i - 1].end as int;
        assert(breaks_at(flow, end));
        assert(lines[i].start == end + 1);
        assert(lines[i].start <= flow.len());
        assert(more[end + 1] == flow[end]);
    }
}

proof fn lemma_lines_with_blank(
    flow: Seq<Unit>,
    more: Seq<Unit>,
    lines: Seq<Range<usize>>,
    k: int,
)
    requires
        is_hard_lines(flow, lines),
        0 <= k < lines.len() - 1,
        has_unit_twice(flow, more, lines[k].end as int),
        more.len() <= usize::MAX,
    ensures
        is_hard_lines(more, lines_with_blank(lines, k)),
{
    let all = lines_with_blank(lines, k);
    assert(lines[lines.len() - 1] == lines.last());
    assert(all.last() == moved(lines.last(), 1));
    assert forall|i: int| #![trigger all[i]] 0 <= i < all.len() implies all[i].start <= all[i].end
        <= more.len() && unbroken(more, all[i].start as int, all[i].end as int) by {
        lemma_blank_line_inside(flow, more, lines, k, i);
    }
    assert forall|i: int| #![trigger all[i]] 0 <= i < all.len() - 1 implies breaks_at(
        more,
        all[i].end as int,
    ) by {
        lemma_blank_line_next(flow, more, lines, k, i);
    }
    assert forall|i: int, j: int|
        #![trigger all[i], all[j]]
        0 <= i && j == i + 1 && j < all.len() implies all[j].start == all[i].end + 1 by {
        lemma_blank_line_next(flow, more, lines, k, i);
    }
}

/// A line ends before the ones after it start.
proof fn lemma_lines_apart(flow: Seq<Unit>, lines: Seq<Range<usize>>, i: int, j: int)
    requires
        is_hard_lines(flow, lines),
        0 <= i <= j < lines.len(),
    ensures
        lines[i].end <= lines[j].end,
        i < j ==> lines[i].end < lines[j].start,
    decreases j - i,
{
    if i < j {
        lemma_lines_apart(flow, lines, i, j - 1);
        assert(lines[j - 1].end + 1 == lines[j].start);
        assert(lines[j].start <= lines[j].end);
    }
}

/// The heights of the first `n` lines, added up.
spec fn heights<K: Kit<Num = Fixed>>(lines: Seq<LineView<K>>, n: int) -> int
    decreases n,
{
    if n <= 0 {
        0
    } else {
        heights(lines, n - 1) + lines[n - 1].height().raw
    }
}

/// Whether no line is of a negative height.
spec fn no_negative_height<K: Kit<Num = Fixed>>(lines: Seq<LineView<K>>) -> bool {
    forall|i: int| #![trigger lines[i]] 0 <= i < lines.len() ==> lines[i].height().raw >= 0
}

proof fn lemma_top_counts<K: Kit<Num = Fixed>>(lines: Seq<LineView<K>>, n: int)
    requires
        no_negative_height(lines),
        0 <= n <= lines.len(),
    ensures
        heights(lines, n) >= 0,
        top_after(lines, n).raw == if heights(lines, n) > i64::MAX {
            i64::MAX as int
        } else {
            heights(lines, n)
        },
    decreases n,
{
    if n > 0 {
        lemma_top_counts(lines, n - 1);
        assert(lines[n - 1].height().raw >= 0);
    }
}

/// One more line, at `k`, among lines of the same heights.
proof fn lemma_heights_with_line<K: Kit<Num = Fixed>>(
    lines: Seq<LineView<K>>,
    more: Seq<LineView<K>>,
    k: int,
    n: int,
)
    requires
        0 <= k <= lines.len(),
        more.len() == lines.len() + 1,
        forall|i: int| #![trigger lines[i]] 0 <= i < k ==> lines[i].height() == more[i].height(),
        forall|i: int|
            #![trigger lines[i]]
            k <= i < lines.len() ==> lines[i].height() == more[i + 1].height(),
        0 <= n <= lines.len(),
    ensures
        n <= k ==> heights(more, n) == heights(lines, n),
        n >= k ==> heights(more, n + 1) == heights(lines, n) + more[k].height().raw,
    decreases n,
{
    if n == 0 {
        assert(heights(more, 0) == 0 && heights(lines, 0) == 0);
    } else {
        lemma_heights_with_line(lines, more, k, n - 1);
        assert(heights(lines, n) == heights(lines, n - 1) + lines[n - 1].height().raw);
        if n <= k {
            assert(heights(more, n) == heights(more, n - 1) + more[n - 1].height().raw);
        }
    }
    if n >= k {
        assert(heights(more, n + 1) == heights(more, n) + more[n].height().raw);
    }
}

/// Whether `height` is how high text in the font of the flow makes a line.
pub open spec fn is_body_height<K: Kit, B: Backend<K>>(
    backend: &B,
    typography: &InlineFlowTypography<K>,
    height: K::Num,
) -> bool {
    exists|line_height: K::Num, baseline: K::Num|
        call_ensures(B::pixel_snap, (backend, typography.line_height), line_height)
            && #[trigger] is_body(backend, typography, line_height, height, baseline)
}

/// Whether the baseline of the font of the flow runs inside its box.
pub open spec fn body_is_sound<K: Kit<Num = Fixed>, B: Backend<K>>(
    backend: &B,
    typography: &InlineFlowTypography<K>,
) -> bool {
    forall|line_height: Fixed, height: Fixed, baseline: Fixed| #[trigger]
        is_body(backend, typography, line_height, height, baseline) ==> 0 <= baseline.raw
            <= height.raw
}

proof fn lemma_sound_body_heights<K: Kit<Num = Fixed>, B: Backend<K>>(
    backend: &B,
    typography: &InlineFlowTypography<K>,
    scale: Fixed,
    text: Seq<char>,
    answers: FlowAnswers<K>,
)
    requires
        body_is_sound(backend, typography),
        plain_answers(backend, typography, scale, text, answers),
    ensures
        no_negative_height(answers.lines),
        forall|i: int|
            #![trigger answers.lines[i]]
            0 <= i < answers.lines.len() && answers.lines[i].fragments.len() == 0
                ==> is_body_height(backend, typography, answers.lines[i].height()),
{
    let lines = answers.lines;
    let (image_sizes, prepared) = choose|
        image_sizes: Seq<Option<Size<Fixed>>>,
        prepared: Seq<Option<MeasuredInlineObject<K>>>,
    | #[trigger]
        is_answers(
            backend,
            typography,
            plain_flow::<K>(text),
            image_sizes,
            prepared,
            None,
            answers,
        );
    assert forall|i: int| #![trigger lines[i]] 0 <= i < lines.len() implies lines[i].height().raw
        >= 0 && (lines[i].fragments.len() == 0 ==> is_body_height(
        backend,
        typography,
        lines[i].height(),
    )) by {
        let line = lines[i];
        assert(is_body(
            backend,
            typography,
            answers.line_height,
            line.body_height,
            line.body_baseline,
        ));
        law_line_holds_its_body(line);
        if line.fragments.len() == 0 {
            assert(line.height() == line.body_height);
        }
    }
}

/// The bytes of a text with a line feed, and with two of them.
proof fn lemma_blank_bytes(head: Seq<char>, tail: Seq<char>)
    ensures
        ({
            let (x, y) = (encode_utf8(head), encode_utf8(tail));
            let bytes = encode_utf8(head + line_feed() + tail);
            let more = encode_utf8(head + line_feed() + line_feed() + tail);
            &&& bytes == x + seq![NEWLINE] + y
            &&& more == x + seq![NEWLINE] + seq![NEWLINE] + y
            &&& breaks_at(text_units(bytes), x.len() as int)
            &&& has_unit_twice(text_units(bytes), text_units(more), x.len() as int)
        }),
{
    lemma_line_feed();
    lemma_encode_append(head, line_feed());
    lemma_encode_append(head + line_feed(), tail);
    lemma_encode_append(head + line_feed(), line_feed());
    lemma_encode_append(head + line_feed() + line_feed(), tail);
}

/// What stands before a line feed, and what stands after it, is the same where
/// the line feed stands twice.
proof fn lemma_bytes_around_blank(
    head: Seq<char>,
    tail: Seq<char>,
    range: Range<usize>,
)
    requires
        range.start <= range.end <= encode_utf8(head + line_feed() + tail).len(),
        encode_utf8(head + line_feed() + tail).len() < usize::MAX,
    ensures
        range.end <= encode_utf8(head).len() ==> bytes_in(head + line_feed() + tail, range)
            == bytes_in(head + line_feed() + line_feed() + tail, range),
        encode_utf8(head).len() < range.start ==> bytes_in(head + line_feed() + tail, range)
            == bytes_in(head + line_feed() + line_feed() + tail, moved(range, 1)),
{
    lemma_blank_bytes(head, tail);
    let (x, y) = (encode_utf8(head), encode_utf8(tail));
    let bytes = x + seq![NEWLINE] + y;
    let more = x + seq![NEWLINE] + seq![NEWLINE] + y;
    let (start, end) = (range.start as int, range.end as int);
    if end <= x.len() {
        assert(bytes.subrange(start, end) =~= more.subrange(start, end));
    }
    if x.len() < start {
        assert(bytes.subrange(start, end) =~= more.subrange(start + 1, end + 1));
    }
}

/// Line `k + 1` of a text with a blank line after its line `k` is that blank
/// one, and the others are alike.
proof fn lemma_lines_around_blank<K: Kit, B: Backend<K>>(
    backend: &B,
    typography: &InlineFlowTypography<K>,
    scale: K::Num,
    head: Seq<char>,
    tail: Seq<char>,
    a: FlowAnswers<K>,
    b: FlowAnswers<K>,
) -> (k: int)
    requires
        answers_alike(backend, typography, scale),
        plain_answers(backend, typography, scale, head + line_feed() + tail, a),
        plain_answers(
            backend,
            typography,
            scale,
            head + line_feed() + line_feed() + tail,
            b,
        ),
    ensures
        0 <= k < a.lines.len(),
        b.lines.len() == a.lines.len() + 1,
        b.lines[k].fragments.len() == 0,
        forall|i: int|
            #![trigger a.lines[i]]
            0 <= i < k ==> lines_alike(a.lines[i], b.lines[i]),
        forall|i: int|
            #![trigger a.lines[i]]
            k <= i < a.lines.len() ==> lines_alike(a.lines[i], b.lines[i + 1]),
{
    let text = head + line_feed() + tail;
    let more = head + line_feed() + line_feed() + tail;
    let (bytes, more_bytes) = (encode_utf8(text), encode_utf8(more));
    let (flow, more_flow) = (text_units(bytes), text_units(more_bytes));
    let at = encode_utf8(head).len() as int;
    lemma_blank_bytes(head, tail);
    let k = lemma_line_ends_at(flow, a.ranges, at, 0);
    lemma_lines_with_blank(flow, more_flow, a.ranges, k);
    law_hard_lines_are_unique(more_flow, b.ranges, lines_with_blank(a.ranges, k));
    assert forall|i: int| #![trigger a.lines[i]] 0 <= i < k + 1 implies lines_alike(
        a.lines[i],
        b.lines[i],
    ) by {
        lemma_lines_apart(flow, a.ranges, i, k);
        assert(a.ranges[i].start <= a.ranges[i].end <= flow.len());
        assert(b.ranges[i] == a.ranges[i]);
        lemma_bytes_around_blank(head, tail, a.ranges[i]);
        lemma_plain_lines_alike(backend, typography, scale, text, a, i, more, b, i);
    }
    assert forall|i: int| #![trigger a.lines[i]] k + 1 <= i < a.lines.len() implies lines_alike(
        a.lines[i],
        b.lines[i + 1],
    ) by {
        lemma_lines_apart(flow, a.ranges, k, i);
        assert(a.ranges[i].start <= a.ranges[i].end <= flow.len());
        assert(b.ranges[i + 1] == moved(a.ranges[i], 1));
        lemma_bytes_around_blank(head, tail, a.ranges[i]);
        lemma_plain_lines_alike(backend, typography, scale, text, a, i, more, b, i + 1);
    }
    lemma_blank_is_blank(backend, typography, scale, more, b, k + 1);
    k + 1
}

/// A blank line has no fragment, shows nothing, and makes a text no wider.
pub proof fn law_blank_line_adds_no_width<K: Kit, B: Backend<K>>(
    backend: &B,
    typography: &InlineFlowTypography<K>,
    scale: K::Num,
    head: Seq<char>,
    tail: Seq<char>,
    image_sizes: Seq<Option<Size<K::Num>>>,
    prepared: Seq<Option<MeasuredInlineObject<K>>>,
    out: LayoutView<K>,
    with_blank: LayoutView<K>,
)
    requires
        larger_is_join::<K::Num>(),
        answers_alike(backend, typography, scale),
        byte_len(head) + byte_len(tail) + 2 <= usize::MAX,
        is_layout(
            backend,
            typography,
            plain_flow::<K>(head + line_feed() + tail),
            image_sizes,
            prepared,
            None,
            out,
        ),
        is_layout(
            backend,
            typography,
            plain_flow::<K>(head + line_feed() + line_feed() + tail),
            image_sizes,
            prepared,
            None,
            with_blank,
        ),
    ensures
        with_blank.size.width == out.size.width,
        with_blank.fragments.len() == out.fragments.len(),
        layout_units(
            plain_flow::<K>(head + line_feed() + line_feed() + tail),
            with_blank.fragments,
        ) == layout_units(plain_flow::<K>(head + line_feed() + tail), out.fragments),
{
    let text = head + line_feed() + tail;
    let more = head + line_feed() + line_feed() + tail;
    lemma_blank_bytes(head, tail);
    let a = lemma_plain_answers(backend, typography, scale, text, image_sizes, prepared, out);
    let b = lemma_plain_answers(
        backend,
        typography,
        scale,
        more,
        image_sizes,
        prepared,
        with_blank,
    );
    let k = lemma_lines_around_blank(backend, typography, scale, head, tail, a, b);
    lemma_alike_but_for_a_blank(a.lines, b.lines, k);
    lemma_unbroken_blank(encode_utf8(head), encode_utf8(tail));
}

/// Lines that are alike but for one without fragments are as wide together and
/// have as many fragments.
proof fn lemma_alike_but_for_a_blank<K: Kit>(
    lines: Seq<LineView<K>>,
    more: Seq<LineView<K>>,
    k: int,
)
    requires
        larger_is_join::<K::Num>(),
        0 <= k < lines.len(),
        more.len() == lines.len() + 1,
        more[k].fragments.len() == 0,
        forall|i: int| #![trigger lines[i]] 0 <= i < k ==> lines_alike(lines[i], more[i]),
        forall|i: int|
            #![trigger lines[i]]
            k <= i < lines.len() ==> lines_alike(lines[i], more[i + 1]),
    ensures
        widest(more, more.len() as int) == widest(lines, lines.len() as int),
        placed_lines(more, more.len() as int).len() == placed_lines(
            lines,
            lines.len() as int,
        ).len(),
{
    assert forall|i: int| #![trigger lines[i]] 0 <= i < k implies lines[i].width()
        == more[i].width() && lines[i].fragments.len() == more[i].fragments.len() by {
        lemma_alike_extent(lines[i], more[i]);
    }
    assert forall|i: int| #![trigger lines[i]] k <= i < lines.len() implies lines[i].width()
        == more[i + 1].width() && lines[i].fragments.len() == more[i + 1].fragments.len() by {
        lemma_alike_extent(lines[i], more[i + 1]);
    }
    lemma_blank_width(lines, more, k, lines.len() as int);
}

/// A line without fragments among others changes nothing of how wide they are
/// and how many fragments they have.
proof fn lemma_blank_width<K: Kit>(
    lines: Seq<LineView<K>>,
    more: Seq<LineView<K>>,
    k: int,
    n: int,
)
    requires
        larger_is_join::<K::Num>(),
        0 <= k <= lines.len(),
        more.len() == lines.len() + 1,
        more[k].fragments.len() == 0,
        forall|i: int|
            #![trigger lines[i]]
            0 <= i < k ==> lines[i].width() == more[i].width() && lines[i].fragments.len()
                == more[i].fragments.len(),
        forall|i: int|
            #![trigger lines[i]]
            k <= i < lines.len() ==> lines[i].width() == more[i + 1].width()
                && lines[i].fragments.len() == more[i + 1].fragments.len(),
        0 <= n <= lines.len(),
    ensures
        n <= k ==> widest(more, n) == widest(lines, n) && placed_lines(more, n).len()
            == placed_lines(lines, n).len(),
        n >= k ==> widest(more, n + 1) == widest(lines, n) && placed_lines(more, n + 1).len()
            == placed_lines(lines, n).len(),
    decreases n,
{
    if n == 0 {
        assert(widest(more, 0) == widest(lines, 0));
        assert(placed_lines(more, 0).len() == 0 && placed_lines(lines, 0).len() == 0);
    } else {
        lemma_blank_width(lines, more, k, n - 1);
        let last = lines[n - 1];
        assert(widest(lines, n) == widest(lines, n - 1).spec_larger(last.width()));
        assert(placed_lines(lines, n).len() == placed_lines(lines, n - 1).len()
            + last.fragments.len());
        if n <= k {
            assert(widest(more, n) == widest(more, n - 1).spec_larger(more[n - 1].width()));
        }
    }
    if n >= k {
        assert(widest(more, n + 1) == widest(more, n).spec_larger(more[n].width()));
        assert(placed_lines(more, n + 1).len() == placed_lines(more, n).len()
            + more[n].fragments.len());
        if n == k {
            lemma_widest_over_zero(lines, n);
        }
    }
}

/// No width is narrower than nothing.
proof fn lemma_widest_over_zero<K: Kit>(lines: Seq<LineView<K>>, n: int)
    requires
        larger_is_join::<K::Num>(),
        0 <= n <= lines.len(),
    ensures
        widest(lines, n).spec_larger(K::Num::spec_zero()) == widest(lines, n),
    decreases n,
{
    let zero = K::Num::spec_zero();
    if n > 0 {
        lemma_widest_over_zero(lines, n - 1);
        let (before, width) = (widest(lines, n - 1), lines[n - 1].width());
        assert(before.spec_larger(width).spec_larger(zero) == before.spec_larger(
            width.spec_larger(zero),
        ));
        assert(width.spec_larger(zero) == zero.spec_larger(width));
        assert(before.spec_larger(zero).spec_larger(width) == before.spec_larger(
            zero.spec_larger(width),
        ));
    }
}

/// A blank line makes a text higher by the body.
pub proof fn law_blank_line_adds_the_body_height<K: Kit<Num = Fixed>, B: Backend<K>>(
    backend: &B,
    typography: &InlineFlowTypography<K>,
    scale: Fixed,
    head: Seq<char>,
    tail: Seq<char>,
    image_sizes: Seq<Option<Size<Fixed>>>,
    prepared: Seq<Option<MeasuredInlineObject<K>>>,
    out: LayoutView<K>,
    with_blank: LayoutView<K>,
)
    requires
        answers_alike(backend, typography, scale),
        body_is_sound(backend, typography),
        byte_len(head) + byte_len(tail) + 2 <= usize::MAX,
        is_layout(
            backend,
            typography,
            plain_flow::<K>(head + line_feed() + tail),
            image_sizes,
            prepared,
            None,
            out,
        ),
        is_layout(
            backend,
            typography,
            plain_flow::<K>(head + line_feed() + line_feed() + tail),
            image_sizes,
            prepared,
            None,
            with_blank,
        ),
        with_blank.size.height.raw < i64::MAX,
    ensures
        exists|body: Fixed| #[trigger]
            is_body_height(backend, typography, body) && with_blank.size.height.raw
                == out.size.height.raw + body.raw,
{
    let text = head + line_feed() + tail;
    let more = head + line_feed() + line_feed() + tail;
    lemma_blank_bytes(head, tail);
    let a = lemma_plain_answers(backend, typography, scale, text, image_sizes, prepared, out);
    let b = lemma_plain_answers(
        backend,
        typography,
        scale,
        more,
        image_sizes,
        prepared,
        with_blank,
    );
    let k = lemma_lines_around_blank(backend, typography, scale, head, tail, a, b);
    let (lines, all) = (a.lines, b.lines);
    assert forall|i: int| #![trigger lines[i]] 0 <= i < k implies lines[i].height()
        == all[i].height() by {
        lemma_alike_extent(lines[i], all[i]);
    }
    assert forall|i: int| #![trigger lines[i]] k <= i < lines.len() implies lines[i].height()
        == all[i + 1].height() by {
        lemma_alike_extent(lines[i], all[i + 1]);
    }
    lemma_sound_body_heights(backend, typography, scale, text, a);
    lemma_sound_body_heights(backend, typography, scale, more, b);
    let n = lines.len() as int;
    lemma_heights_with_line(lines, all, k, n);
    lemma_top_counts(lines, n);
    lemma_top_counts(all, n + 1);
    assert(is_body_height(backend, typography, all[k].height()));
}

proof fn lemma_unbroken_blank(x: Seq<u8>, y: Seq<u8>)
    ensures
        without_breaks(text_units(x + seq![NEWLINE] + seq![NEWLINE] + y)) == without_breaks(
            text_units(x + seq![NEWLINE] + y),
        ),
{
    let feed = text_units(seq![NEWLINE]);
    let head = text_units(x) + feed;
    let tail = text_units(y);
    assert(text_units(x + seq![NEWLINE] + seq![NEWLINE] + y) =~= head + feed + tail);
    assert(text_units(x + seq![NEWLINE] + y) =~= head + tail);
    lemma_without_breaks_append(head + feed, tail);
    lemma_without_breaks_append(head, feed);
    lemma_without_breaks_append(head, tail);
    assert(without_breaks(feed) =~= Seq::empty()) by {
        reveal(Seq::filter);
        assert(feed.drop_last() =~= Seq::empty());
        assert(feed.drop_last().filter(|unit: Unit| unit != Unit::Byte(NEWLINE)).len() == 0);
    }
    assert(without_breaks(head) + without_breaks(feed) =~= without_breaks(head));
}

proof fn lemma_blank_is_blank<K: Kit, B: Backend<K>>(
    backend: &B,
    typography: &InlineFlowTypography<K>,
    scale: K::Num,
    text: Seq<char>,
    answers: FlowAnswers<K>,
    i: int,
)
    requires
        plain_answers(backend, typography, scale, text, answers),
        0 <= i < answers.ranges.len(),
        answers.ranges[i].start == answers.ranges[i].end,
    ensures
        answers.lines[i].fragments.len() == 0,
{
    let (image_sizes, prepared) = choose|
        image_sizes: Seq<Option<Size<K::Num>>>,
        prepared: Seq<Option<MeasuredInlineObject<K>>>,
    | #[trigger]
        is_answers(
            backend,
            typography,
            plain_flow::<K>(text),
            image_sizes,
            prepared,
            None,
            answers,
        );
    let line = answers.lines[i];
    assert(answers.ranges[i].end <= byte_len(text));
    lemma_plain_line(
        backend,
        typography,
        answers.line_height,
        scale,
        text,
        image_sizes,
        answers.objects,
        answers.sizes,
        answers.ranges[i],
        line,
    );
}

/// The hard lines after line `k`, counted from the start of the one after it.
spec fn lines_after(lines: Seq<Range<usize>>, k: int) -> Seq<Range<usize>> {
    Seq::new(
        (lines.len() - k - 1) as nat,
        |i: int| moved(lines[k + 1 + i], -(lines[k].end + 1)),
    )
}

proof fn lemma_lines_of_head(flow: Seq<Unit>, lines: Seq<Range<usize>>, k: int)
    requires
        is_hard_lines(flow, lines),
        0 <= k < lines.len(),
    ensures
        is_hard_lines(flow.take(lines[k].end as int), lines.take(k + 1)),
{
    let (head, own) = (flow.take(lines[k].end as int), lines.take(k + 1));
    assert forall|i: int| #![trigger own[i]] 0 <= i < own.len() implies own[i].start <= own[i].end
        <= head.len() && unbroken(head, own[i].start as int, own[i].end as int) by {
        lemma_lines_apart(flow, lines, i, k);
        assert(unbroken(flow, lines[i].start as int, lines[i].end as int));
        assert forall|p: int| own[i].start <= p < own[i].end implies !#[trigger] breaks_at(
            head,
            p,
        ) by {
            assert(!breaks_at(flow, p));
        }
    }
    assert forall|i: int| #![trigger own[i]] 0 <= i < own.len() - 1 implies breaks_at(
        head,
        own[i].end as int,
    ) by {
        lemma_lines_apart(flow, lines, i, k);
        assert(breaks_at(flow, lines[i].end as int));
        assert(lines[k].start <= lines[k].end);
    }
    assert forall|i: int, j: int|
        #![trigger own[i], own[j]]
        0 <= i && j == i + 1 && j < own.len() implies own[j].start == own[i].end + 1 by {
        assert(lines[j].start == lines[i].end + 1);
    }
}

proof fn lemma_lines_of_tail(flow: Seq<Unit>, lines: Seq<Range<usize>>, k: int)
    requires
        is_hard_lines(flow, lines),
        0 <= k < lines.len() - 1,
    ensures
        is_hard_lines(flow.skip(lines[k].end + 1), lines_after(lines, k)),
{
    let from = lines[k].end + 1;
    let (tail, own) = (flow.skip(from), lines_after(lines, k));
    assert(breaks_at(flow, lines[k].end as int));
    assert(lines[k + 1].start == from);
    assert(lines[lines.len() - 1] == lines.last());
    assert(own.last() == moved(lines.last(), -from));
    lemma_lines_apart(flow, lines, k, lines.len() - 1);
    assert forall|i: int| #![trigger own[i]] 0 <= i < own.len() implies own[i].start <= own[i].end
        <= tail.len() && unbroken(tail, own[i].start as int, own[i].end as int) by {
        let line = lines[k + 1 + i];
        lemma_lines_apart(flow, lines, k, k + 1 + i);
        assert(unbroken(flow, line.start as int, line.end as int));
        assert forall|p: int| own[i].start <= p < own[i].end implies !#[trigger] breaks_at(
            tail,
            p,
        ) by {
            assert(!breaks_at(flow, p + from));
        }
    }
    assert forall|i: int| #![trigger own[i]] 0 <= i < own.len() - 1 implies breaks_at(
        tail,
        own[i].end as int,
    ) by {
        let (line, next) = (lines[k + 1 + i], lines[k + 1 + i + 1]);
        lemma_lines_apart(flow, lines, k, k + 1 + i);
        assert(breaks_at(flow, line.end as int));
        assert(next.start == line.end + 1);
        assert(next.start <= next.end <= flow.len());
    }
    assert forall|i: int, j: int|
        #![trigger own[i], own[j]]
        0 <= i && j == i + 1 && j < own.len() implies own[j].start == own[i].end + 1 by {
        lemma_lines_apart(flow, lines, k, k + 1 + i);
        assert(lines[k + 1 + j].start == lines[k + 1 + i].end + 1);
    }
}

/// The answers behind the intrinsic width of a text.
proof fn lemma_plain_width<K: Kit, B: Backend<K>>(
    backend: &B,
    typography: &InlineFlowTypography<K>,
    scale: K::Num,
    text: Seq<char>,
    width: K::Num,
) -> (answers: FlowAnswers<K>)
    requires
        answers_alike(backend, typography, scale),
        byte_len(text) <= usize::MAX,
        is_intrinsic_width(backend, typography, plain_flow::<K>(text), width),
    ensures
        byte_len(text) == 0 ==> width == K::Num::spec_zero(),
        byte_len(text) > 0 ==> plain_answers(backend, typography, scale, text, answers) && width
            == widest(answers.lines, answers.lines.len() as int),
{
    let items = plain_flow::<K>(text);
    lemma_plain_content::<K>(text);
    let (image_sizes, layout) = choose|
        image_sizes: Seq<Option<Size<K::Num>>>,
        layout: LayoutView<K>,
    | #[trigger]
        is_image_sizes(backend, typography, items, image_sizes)
            && #[trigger] is_drawn_layout(
            backend,
            typography,
            items,
            image_sizes,
            None,
            layout,
        ) && width == layout.size.width;
    let objects = choose|objects: Seq<Option<MeasuredInlineObject<K>>>| #[trigger]
        is_prepared(backend, typography, items, objects) && is_layout(
            backend,
            typography,
            items,
            image_sizes,
            objects,
            None,
            layout,
        );
    if byte_len(text) > 0 {
        lemma_plain_answers(backend, typography, scale, text, image_sizes, objects, layout)
    } else {
        arbitrary()
    }
}

/// The bytes of two texts with a line feed between them.
proof fn lemma_joined_bytes(head: Seq<char>, tail: Seq<char>)
    ensures
        ({
            let (x, y) = (encode_utf8(head), encode_utf8(tail));
            let bytes = encode_utf8(head + line_feed() + tail);
            let flow = text_units(bytes);
            &&& bytes == x + seq![NEWLINE] + y
            &&& breaks_at(flow, x.len() as int)
            &&& flow.take(x.len() as int) == text_units(x)
            &&& flow.skip(x.len() as int + 1) == text_units(y)
        }),
{
    lemma_line_feed();
    lemma_encode_append(head, line_feed());
    lemma_encode_append(head + line_feed(), tail);
    let (x, y) = (encode_utf8(head), encode_utf8(tail));
    let flow = text_units(encode_utf8(head + line_feed() + tail));
    assert(flow.take(x.len() as int) =~= text_units(x));
    assert(flow.skip(x.len() as int + 1) =~= text_units(y));
}

proof fn lemma_bytes_of_parts(head: Seq<char>, tail: Seq<char>, range: Range<usize>)
    requires
        range.start <= range.end <= encode_utf8(head + line_feed() + tail).len() <= usize::MAX,
    ensures
        range.end <= encode_utf8(head).len() ==> bytes_in(head + line_feed() + tail, range)
            == bytes_in(head, range),
        encode_utf8(head).len() < range.start ==> bytes_in(head + line_feed() + tail, range)
            == bytes_in(tail, moved(range, -(encode_utf8(head).len() + 1))),
{
    lemma_joined_bytes(head, tail);
    let (x, y) = (encode_utf8(head), encode_utf8(tail));
    let bytes = x + seq![NEWLINE] + y;
    let (start, end) = (range.start as int, range.end as int);
    let from = x.len() + 1;
    if end <= x.len() {
        assert(bytes.subrange(start, end) =~= x.subrange(start, end));
    }
    if x.len() < start {
        assert(bytes.subrange(start, end) =~= y.subrange(start - from, end - from));
    }
}

/// A line of a text that ends in its first part is as wide as there.
proof fn lemma_width_in_head<K: Kit, B: Backend<K>>(
    backend: &B,
    typography: &InlineFlowTypography<K>,
    scale: K::Num,
    head: Seq<char>,
    tail: Seq<char>,
    whole: FlowAnswers<K>,
    a: FlowAnswers<K>,
    k: int,
    i: int,
)
    requires
        answers_alike(backend, typography, scale),
        plain_answers(backend, typography, scale, head + line_feed() + tail, whole),
        byte_len(head) > 0 ==> plain_answers(backend, typography, scale, head, a),
        0 <= i <= k < whole.ranges.len() - 1,
        whole.ranges[k].end == byte_len(head),
    ensures
        byte_len(head) > 0 ==> a.lines.len() == k + 1 && whole.lines[i].width()
            == a.lines[i].width(),
        byte_len(head) == 0 ==> whole.lines[i].width() == K::Num::spec_zero(),
{
    let text = head + line_feed() + tail;
    let flow = text_units(encode_utf8(text));
    lemma_joined_bytes(head, tail);
    lemma_lines_apart(flow, whole.ranges, i, k);
    let range = whole.ranges[i];
    assert(range.start <= range.end <= flow.len());
    if byte_len(head) > 0 {
        lemma_lines_of_head(flow, whole.ranges, k);
        law_hard_lines_are_unique(
            text_units(encode_utf8(head)),
            a.ranges,
            whole.ranges.take(k + 1),
        );
        assert(a.ranges[i] == range);
        lemma_bytes_of_parts(head, tail, range);
        lemma_plain_lines_alike(backend, typography, scale, text, whole, i, head, a, i);
    } else {
        lemma_blank_is_blank(backend, typography, scale, text, whole, i);
    }
}

/// A line of a text that starts in its second part is as wide as there.
proof fn lemma_width_in_tail<K: Kit, B: Backend<K>>(
    backend: &B,
    typography: &InlineFlowTypography<K>,
    scale: K::Num,
    head: Seq<char>,
    tail: Seq<char>,
    whole: FlowAnswers<K>,
    b: FlowAnswers<K>,
    k: int,
    i: int,
)
    requires
        answers_alike(backend, typography, scale),
        plain_answers(backend, typography, scale, head + line_feed() + tail, whole),
        byte_len(tail) > 0 ==> plain_answers(backend, typography, scale, tail, b),
        0 <= k < i < whole.ranges.len(),
        whole.ranges[k].end == byte_len(head),
    ensures
        byte_len(tail) > 0 ==> b.lines.len() == whole.lines.len() - k - 1
            && whole.lines[i].width() == b.lines[i - k - 1].width(),
        byte_len(tail) == 0 ==> whole.lines[i].width() == K::Num::spec_zero(),
{
    let text = head + line_feed() + tail;
    let flow = text_units(encode_utf8(text));
    let from = byte_len(head) + 1;
    lemma_joined_bytes(head, tail);
    lemma_lines_apart(flow, whole.ranges, k, i);
    let range = whole.ranges[i];
    assert(range.start <= range.end <= flow.len());
    if byte_len(tail) > 0 {
        lemma_lines_of_tail(flow, whole.ranges, k);
        law_hard_lines_are_unique(
            text_units(encode_utf8(tail)),
            b.ranges,
            lines_after(whole.ranges, k),
        );
        assert(b.ranges[i - k - 1] == moved(range, -from));
        lemma_bytes_of_parts(head, tail, range);
        lemma_plain_lines_alike(
            backend,
            typography,
            scale,
            text,
            whole,
            i,
            tail,
            b,
            i - k - 1,
        );
    } else {
        lemma_blank_is_blank(backend, typography, scale, text, whole, i);
    }
}

/// Whether the lines of `whole` from `from` on are as wide as those of `part`,
/// which are `width` wide together; where there are none, that is no width.
spec fn widths_from<K: Kit>(
    whole: Seq<LineView<K>>,
    from: int,
    to: int,
    part: Seq<LineView<K>>,
    width: K::Num,
) -> bool {
    if part.len() == 0 {
        &&& width == K::Num::spec_zero()
        &&& forall|i: int|
            #![trigger whole[i]]
            from <= i < to ==> whole[i].width() == K::Num::spec_zero()
    } else {
        &&& width == widest(part, part.len() as int)
        &&& part.len() == to - from
        &&& forall|i: int|
            #![trigger whole[i]]
            from <= i < to ==> whole[i].width() == part[i - from].width()
    }
}

/// Lines of a part widen the ones before them by the width of the part.
proof fn lemma_widest_joined<K: Kit>(
    whole: Seq<LineView<K>>,
    from: int,
    part: Seq<LineView<K>>,
    n: int,
)
    requires
        larger_is_join::<K::Num>(),
        0 <= from,
        0 <= n <= part.len(),
        from + n <= whole.len(),
        forall|i: int|
            #![trigger whole[i]]
            from <= i < from + n ==> whole[i].width() == part[i - from].width(),
    ensures
        widest(whole, from + n) == widest(whole, from).spec_larger(widest(part, n)),
    decreases n,
{
    let start = widest(whole, from);
    if n == 0 {
        lemma_widest_over_zero(whole, from);
        assert(widest(part, 0) == K::Num::spec_zero());
    } else {
        lemma_widest_joined(whole, from, part, n - 1);
        let (before, width) = (widest(part, n - 1), part[n - 1].width());
        assert(whole[from + n - 1].width() == width);
        assert(widest(whole, from + n) == widest(whole, from + (n - 1)).spec_larger(width));
        assert(widest(part, n) == before.spec_larger(width));
        assert(start.spec_larger(before).spec_larger(width) == start.spec_larger(
            before.spec_larger(width),
        ));
    }
}

/// Lines without width widen the ones before them by nothing.
proof fn lemma_widest_of_nothing<K: Kit>(whole: Seq<LineView<K>>, from: int, to: int)
    requires
        larger_is_join::<K::Num>(),
        0 <= from <= to <= whole.len(),
        forall|i: int|
            #![trigger whole[i]]
            from <= i < to ==> whole[i].width() == K::Num::spec_zero(),
    ensures
        widest(whole, to) == widest(whole, from),
    decreases to - from,
{
    if from < to {
        lemma_widest_of_nothing(whole, from, to - 1);
        assert(whole[to - 1].width() == K::Num::spec_zero());
        lemma_widest_over_zero(whole, from);
    }
}

/// A part widens the lines before it by its width.
proof fn lemma_widened<K: Kit>(
    whole: Seq<LineView<K>>,
    from: int,
    to: int,
    part: Seq<LineView<K>>,
    width: K::Num,
)
    requires
        larger_is_join::<K::Num>(),
        0 <= from <= to <= whole.len(),
        widths_from(whole, from, to, part, width),
    ensures
        widest(whole, to) == widest(whole, from).spec_larger(width),
        K::Num::spec_zero().spec_larger(width) == width,
{
    let zero = K::Num::spec_zero();
    if part.len() == 0 {
        lemma_widest_of_nothing(whole, from, to);
        lemma_widest_over_zero(whole, from);
        assert(zero.spec_larger(zero) == zero);
    } else {
        lemma_widest_joined(whole, from, part, part.len() as int);
        lemma_widest_over_zero(part, part.len() as int);
        assert(zero.spec_larger(width) == width.spec_larger(zero));
    }
}

proof fn lemma_widest_of_parts<K: Kit>(
    whole: Seq<LineView<K>>,
    k: int,
    a: Seq<LineView<K>>,
    head_width: K::Num,
    b: Seq<LineView<K>>,
    tail_width: K::Num,
)
    requires
        larger_is_join::<K::Num>(),
        0 <= k <= whole.len(),
        widths_from(whole, 0, k, a, head_width),
        widths_from(whole, k, whole.len() as int, b, tail_width),
    ensures
        widest(whole, whole.len() as int) == head_width.spec_larger(tail_width),
{
    lemma_widened(whole, 0, k, a, head_width);
    lemma_widened(whole, k, whole.len() as int, b, tail_width);
    assert(widest(whole, 0) == K::Num::spec_zero());
}

proof fn lemma_head_widths<K: Kit, B: Backend<K>>(
    backend: &B,
    typography: &InlineFlowTypography<K>,
    scale: K::Num,
    head: Seq<char>,
    tail: Seq<char>,
    whole: FlowAnswers<K>,
    width: K::Num,
    k: int,
) -> (lines: Seq<LineView<K>>)
    requires
        answers_alike(backend, typography, scale),
        byte_len(head) <= usize::MAX,
        plain_answers(backend, typography, scale, head + line_feed() + tail, whole),
        is_intrinsic_width(backend, typography, plain_flow::<K>(head), width),
        0 <= k < whole.ranges.len() - 1,
        whole.ranges[k].end == byte_len(head),
    ensures
        widths_from(whole.lines, 0, k + 1, lines, width),
{
    let a = lemma_plain_width(backend, typography, scale, head, width);
    let lines = if byte_len(head) > 0 {
        a.lines
    } else {
        Seq::empty()
    };
    lemma_width_in_head(backend, typography, scale, head, tail, whole, a, k, 0);
    assert forall|i: int| #![trigger whole.lines[i]] 0 <= i < k + 1 implies if byte_len(head) > 0 {
        whole.lines[i].width() == a.lines[i].width()
    } else {
        whole.lines[i].width() == K::Num::spec_zero()
    } by {
        lemma_width_in_head(backend, typography, scale, head, tail, whole, a, k, i);
    }
    lines
}

proof fn lemma_tail_widths<K: Kit, B: Backend<K>>(
    backend: &B,
    typography: &InlineFlowTypography<K>,
    scale: K::Num,
    head: Seq<char>,
    tail: Seq<char>,
    whole: FlowAnswers<K>,
    width: K::Num,
    k: int,
) -> (lines: Seq<LineView<K>>)
    requires
        answers_alike(backend, typography, scale),
        byte_len(tail) <= usize::MAX,
        plain_answers(backend, typography, scale, head + line_feed() + tail, whole),
        is_intrinsic_width(backend, typography, plain_flow::<K>(tail), width),
        0 <= k < whole.ranges.len() - 1,
        whole.ranges[k].end == byte_len(head),
    ensures
        widths_from(whole.lines, k + 1, whole.lines.len() as int, lines, width),
{
    let b = lemma_plain_width(backend, typography, scale, tail, width);
    let n = whole.lines.len() as int;
    let lines = if byte_len(tail) > 0 {
        b.lines
    } else {
        Seq::empty()
    };
    lemma_width_in_tail(backend, typography, scale, head, tail, whole, b, k, k + 1);
    assert forall|i: int| #![trigger whole.lines[i]] k + 1 <= i < n implies if byte_len(tail) > 0 {
        whole.lines[i].width() == b.lines[i - (k + 1)].width()
    } else {
        whole.lines[i].width() == K::Num::spec_zero()
    } by {
        lemma_width_in_tail(backend, typography, scale, head, tail, whole, b, k, i);
    }
    lines
}

/// Two texts with a line feed between them are as wide as the wider of them.
pub proof fn law_intrinsic_width_is_that_of_the_wider<K: Kit, B: Backend<K>>(
    backend: &B,
    typography: &InlineFlowTypography<K>,
    scale: K::Num,
    head: Seq<char>,
    tail: Seq<char>,
    head_width: K::Num,
    tail_width: K::Num,
    width: K::Num,
)
    requires
        larger_is_join::<K::Num>(),
        answers_alike(backend, typography, scale),
        byte_len(head) + byte_len(tail) + 1 <= usize::MAX,
        is_intrinsic_width(backend, typography, plain_flow::<K>(head), head_width),
        is_intrinsic_width(backend, typography, plain_flow::<K>(tail), tail_width),
        is_intrinsic_width(
            backend,
            typography,
            plain_flow::<K>(head + line_feed() + tail),
            width,
        ),
    ensures
        width == head_width.spec_larger(tail_width),
{
    let text = head + line_feed() + tail;
    let flow = text_units(encode_utf8(text));
    lemma_joined_bytes(head, tail);
    let whole = lemma_plain_width(backend, typography, scale, text, width);
    let k = lemma_line_ends_at(flow, whole.ranges, byte_len(head) as int, 0);
    let a = lemma_head_widths(
        backend,
        typography,
        scale,
        head,
        tail,
        whole,
        head_width,
        k,
    );
    let b = lemma_tail_widths(
        backend,
        typography,
        scale,
        head,
        tail,
        whole,
        tail_width,
        k,
    );
    lemma_widest_of_parts(whole.lines, k + 1, a, head_width, b, tail_width);
}

/// A text of nothing has no intrinsic width.
pub proof fn law_intrinsic_width_of_nothing<K: Kit, B: Backend<K>>(
    backend: &B,
    typography: &InlineFlowTypography<K>,
    width: K::Num,
)
    requires
        is_intrinsic_width(backend, typography, plain_flow::<K>(Seq::empty()), width),
    ensures
        width == K::Num::spec_zero(),
{
    lemma_plain_content::<K>(Seq::empty());
    assert(encode_utf8(Seq::<char>::empty()) =~= Seq::empty());
}

} // verus!
