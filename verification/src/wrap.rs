//! Breaking a flow into lines.

use std::ops::Range;

use vstd::prelude::*;
use vstd::utf8::encode_utf8;

use crate::backend::{
    wrap_views, Backend, InlineFlowTypography, MeasuredInlineObject, WrapFragment, WrapView,
};
use crate::content::{
    breaks_at, checked_len, content, flow_content, flow_len, hard_lines, is_hard_lines, lemma_content_at,
    lemma_offset_ends, lemma_offset_monotone, lemma_offset_step, offset, unbroken, Unit, NEWLINE,
};
use crate::geometry::Size;
use crate::item::{views, ItemView, MeasureItem, IMAGE_LEN};
use crate::kit::Kit;
use crate::marks::InlineHighlight;
use crate::spans::{
    cuts, is_wrap_text, lemma_cuts_len, lemma_spans_on_chars, lemma_wrap_len_append,
    push_text_wrap_fragments, spans, spans_of_first, styled_on_chars, text_spans, wrap_len, TextSpan,
};
use crate::text::{
    lemma_on_char_ascii, lemma_on_char_ends, lemma_slice_bytes, on_char, text_slice,
};

verus! {

/// How long a range is.
pub open spec fn range_len(range: Range<usize>) -> int {
    if range.start < range.end {
        range.end - range.start
    } else {
        0
    }
}

/// Where a line is broken for a break `ix` units into it, its end at the
/// latest.
pub open spec fn break_at(line: Range<usize>, ix: usize) -> int {
    line.start + if ix < range_len(line) {
        ix as int
    } else {
        range_len(line)
    }
}

/// Where the piece after the given breaks starts.
pub open spec fn last_break(line: Range<usize>, breaks: Seq<usize>) -> int {
    if breaks.len() == 0 {
        line.start as int
    } else {
        break_at(line, breaks.last())
    }
}

/// The pieces of a line up to its last break: each runs from one break to the
/// next, where that is a step forward.
pub open spec fn pieces_to_break(line: Range<usize>, breaks: Seq<usize>) -> Seq<Range<usize>>
    decreases breaks.len(),
{
    if breaks.len() == 0 {
        Seq::empty()
    } else {
        let before = pieces_to_break(line, breaks.drop_last());
        let (start, end) = (last_break(line, breaks.drop_last()), last_break(line, breaks));
        if start < end {
            before.push(Range { start: start as usize, end: end as usize })
        } else {
            before
        }
    }
}

/// The pieces of a line broken at `breaks`: those up to the last break, and
/// what is left after it. A line without length is one piece.
pub open spec fn pieces(line: Range<usize>, breaks: Seq<usize>) -> Seq<Range<usize>> {
    let start = last_break(line, breaks);
    if start < line.end || range_len(line) == 0 {
        pieces_to_break(line, breaks).push(Range { start: start as usize, end: line.end })
    } else {
        pieces_to_break(line, breaks)
    }
}

/// Cuts a line at `breaks`, each given as a distance from its start.
pub fn cut_line(line: &Range<usize>, breaks: &[usize]) -> (r: Vec<Range<usize>>)
    ensures
        r@ == pieces(*line, breaks@),
{
    let len: usize = if line.start < line.end { line.end - line.start } else { 0 };
    let mut out: Vec<Range<usize>> = Vec::new();
    let mut start: usize = line.start;
    for ix in 0..breaks.len()
        invariant
            len == range_len(*line),
            start == last_break(*line, breaks@.take(ix as int)),
            out@ == pieces_to_break(*line, breaks@.take(ix as int)),
    {
        assert(breaks@.take(ix + 1).drop_last() =~= breaks@.take(ix as int));
        let at: usize = if breaks[ix] < len { breaks[ix] } else { len };
        let end: usize = line.start + at;
        if start < end {
            out.push(start..end);
        }
        start = end;
    }
    assert(breaks@.take(breaks@.len() as int) =~= breaks@);
    if start < line.end || !(line.start < line.end) {
        out.push(start..line.end);
    }
    out
}

/// Whether `ranges` cover `start..end` one after the other.
pub open spec fn tiles(ranges: Seq<Range<usize>>, start: int, end: int) -> bool {
    &&& ranges.len() == 0 ==> start == end
    &&& ranges.len() > 0 ==> ranges[0].start == start && ranges.last().end == end
    &&& forall|i: int| #![trigger ranges[i]] 0 <= i < ranges.len() ==> ranges[i].start <= ranges[i].end
    &&& forall|i: int|
        #![trigger ranges[i]]
        0 <= i < ranges.len() - 1 ==> ranges[i].end == ranges[i + 1].start
}

/// Whether breaks come in order.
pub open spec fn in_order(breaks: Seq<usize>) -> bool {
    forall|i: int, j: int| 0 <= i <= j < breaks.len() ==> breaks[i] <= breaks[j]
}

proof fn lemma_pieces_to_break(line: Range<usize>, breaks: Seq<usize>)
    requires
        in_order(breaks),
        line.start <= line.end,
    ensures
        tiles(pieces_to_break(line, breaks), line.start as int, last_break(line, breaks)),
        line.start <= last_break(line, breaks) <= line.end,
        forall|i: int|
            #![trigger pieces_to_break(line, breaks)[i]]
            0 <= i < pieces_to_break(line, breaks).len() ==> pieces_to_break(line, breaks)[i].start
                < pieces_to_break(line, breaks)[i].end,
        line.start == line.end ==> pieces_to_break(line, breaks).len() == 0,
    decreases breaks.len(),
{
    if breaks.len() > 0 {
        let before = breaks.drop_last();
        assert(in_order(before));
        lemma_pieces_to_break(line, before);
        if before.len() > 0 {
            assert(breaks[before.len() - 1] <= breaks.last());
        }
    }
}

/// Nothing of a line is lost or shown twice when it is cut: for breaks that
/// come in order the pieces cover the line one after the other, and only a
/// line without length gives a piece without length.
pub proof fn law_cut_covers_line(line: Range<usize>, breaks: Seq<usize>)
    requires
        in_order(breaks),
        line.start <= line.end,
    ensures
        tiles(pieces(line, breaks), line.start as int, line.end as int),
        pieces(line, breaks).len() > 0,
        forall|i: int|
            #![trigger pieces(line, breaks)[i]]
            0 <= i < pieces(line, breaks).len() ==> pieces(line, breaks)[i].start < pieces(
                line,
                breaks,
            )[i].end || line.start == line.end,
        line.start == line.end ==> pieces(line, breaks) == seq![line],
{
    lemma_pieces_to_break(line, breaks);
    if line.start == line.end {
        assert(pieces(line, breaks) =~= seq![line]);
    }
}

proof fn lemma_pieces_between_breaks(line: Range<usize>, breaks: Seq<usize>, n: int, i: int)
    requires
        in_order(breaks),
        line.start <= line.end,
        0 <= n <= breaks.len(),
        0 <= i < pieces_to_break(line, breaks.take(n)).len(),
    ensures
        ({
            let piece = pieces_to_break(line, breaks.take(n))[i];
            &&& piece.start == line.start || breaks.contains((piece.start - line.start) as usize)
            &&& piece.end == line.end || breaks.contains((piece.end - line.start) as usize)
            &&& piece.end <= last_break(line, breaks.take(n))
            &&& forall|j: int|
                0 <= j < breaks.len() ==> !(piece.start - line.start < #[trigger] breaks[j]
                    < piece.end - line.start)
        }),
    decreases n,
{
    let (now, before) = (breaks.take(n), breaks.take(n - 1));
    assert(now.drop_last() =~= before);
    assert(in_order(now));
    assert(in_order(before));
    lemma_pieces_to_break(line, before);
    lemma_pieces_to_break(line, now);
    assert(now.last() == breaks[n - 1]);
    if n > 1 {
        assert(before.last() == breaks[n - 2]);
        assert(breaks[n - 2] <= breaks[n - 1]);
    }
    if i < pieces_to_break(line, before).len() {
        lemma_pieces_between_breaks(line, breaks, n - 1, i);
    } else {
        let piece = pieces_to_break(line, now)[i];
        assert(piece.start == last_break(line, before));
        assert(piece.end == last_break(line, now));
        assert forall|j: int| 0 <= j < breaks.len() implies !(piece.start - line.start
            < #[trigger] breaks[j] < piece.end - line.start) by {
            if j <= n - 2 {
                assert(breaks[j] <= breaks[n - 2]);
            } else {
                assert(breaks[n - 1] <= breaks[j]);
            }
        }
    }
}

/// A line is broken at its breaks and nowhere else: each piece starts at the
/// start of the line or at a break, ends at a break or at the end of the line,
/// and has no break inside.
pub proof fn law_line_is_cut_at_its_breaks(line: Range<usize>, breaks: Seq<usize>, i: int)
    requires
        in_order(breaks),
        line.start <= line.end,
        0 <= i < pieces(line, breaks).len(),
    ensures
        ({
            let piece = pieces(line, breaks)[i];
            &&& piece.start == line.start || breaks.contains((piece.start - line.start) as usize)
            &&& piece.end == line.end || breaks.contains((piece.end - line.start) as usize)
            &&& forall|j: int|
                0 <= j < breaks.len() ==> !(piece.start - line.start < #[trigger] breaks[j]
                    < piece.end - line.start)
        }),
{
    let n = breaks.len() as int;
    assert(breaks.take(n) =~= breaks);
    lemma_pieces_to_break(line, breaks);
    if i < pieces_to_break(line, breaks).len() {
        lemma_pieces_between_breaks(line, breaks, n, i);
    } else {
        let piece = pieces(line, breaks)[i];
        if n > 0 {
            assert(breaks[n - 1] == breaks.last());
            assert forall|j: int| 0 <= j < n implies !(piece.start - line.start
                < #[trigger] breaks[j] < piece.end - line.start) by {
                assert(breaks[j] <= breaks[n - 1]);
            }
        }
    }
}

/// Whether every image and every object of a flow was measured.
pub open spec fn atoms_measured<K: Kit>(
    items: Seq<ItemView<K>>,
    image_sizes: Seq<Option<Size<K::Num>>>,
    objects: Seq<Option<MeasuredInlineObject<K>>>,
) -> bool {
    forall|ix: int|
        #![trigger items[ix]]
        0 <= ix < items.len() ==> match items[ix] {
            ItemView::Text { .. } => true,
            ItemView::Image { .. } => ix < image_sizes.len() && image_sizes[ix] is Some,
            ItemView::Object { .. } => ix < objects.len() && objects[ix] is Some,
        }
}

/// Whether `lo..hi` is what a line leaves of a text between line feeds.
pub open spec fn is_text_line(bytes: Seq<u8>, lo: int, hi: int) -> bool {
    &&& 0 <= lo < hi <= bytes.len()
    &&& lo == 0 || bytes[lo - 1] == NEWLINE
    &&& hi == bytes.len() || bytes[hi] == NEWLINE
    &&& forall|at: int| lo <= at < hi ==> #[trigger] bytes[at] != NEWLINE
}

/// Whether no span that a highlight sets in another font splits a character
/// of `text`, on any of its lines.
pub open spec fn text_on_chars<K: Kit>(
    text: Seq<char>,
    highlights: Seq<(Range<usize>, InlineHighlight<K>)>,
) -> bool {
    forall|range: Range<usize>| #[trigger]
        is_text_line(encode_utf8(text), range.start as int, range.end as int) ==> styled_on_chars(
            text,
            spans(highlights, range),
        )
}

/// Whether no span that a highlight sets in another font splits a character.
pub open spec fn flow_on_chars<K: Kit>(items: Seq<ItemView<K>>) -> bool {
    forall|ix: int|
        #![trigger items[ix]]
        0 <= ix < items.len() ==> match items[ix] {
            ItemView::Text { text, highlights, .. } => text_on_chars(text, highlights),
            _ => true,
        }
}

/// Tells whether no styled span of the line `start..end` of a text splits a
/// character.
fn line_splits_no_character<K: Kit>(
    text: &str,
    highlights: &Vec<(Range<usize>, InlineHighlight<K>)>,
    range: &Range<usize>,
) -> (r: bool)
    ensures
        r == styled_on_chars(text@, spans(highlights@, *range)),
{
    let parts = text_spans(highlights, range);
    for ix in 0..parts.len()
        invariant
            parts@ == spans(highlights@, *range),
            styled_on_chars(text@, parts@.take(ix as int)),
    {
        if let TextSpan::Styled { start, end, .. } = &parts[ix] {
            if !text.is_char_boundary(*start) || !text.is_char_boundary(*end) {
                assert(parts@[ix as int] is Styled);
                return false;
            }
        }
    }
    assert(parts@.take(parts@.len() as int) =~= parts@);
    true
}

/// Tells whether no styled span of a text splits a character, on any of its
/// lines.
fn text_splits_no_character<K: Kit>(
    text: &str,
    highlights: &Vec<(Range<usize>, InlineHighlight<K>)>,
) -> (r: bool)
    ensures
        r == text_on_chars(text@, highlights@),
{
    let bytes = text.as_bytes();
    let len: usize = bytes.len();
    let mut start: usize = 0;
    let mut at: usize = 0;
    loop
        invariant
            bytes@ == encode_utf8(text@),
            len == bytes@.len(),
            start <= at <= len,
            start == 0 || bytes@[start - 1] == NEWLINE,
            forall|i: int| start <= i < at ==> #[trigger] bytes@[i] != NEWLINE,
            forall|range: Range<usize>| #[trigger]
                is_text_line(bytes@, range.start as int, range.end as int) && range.end < at
                    ==> styled_on_chars(text@, spans(highlights@, range)),
        decreases len - at,
    {
        if at == len || bytes[at] == NEWLINE {
            let range: Range<usize> = start..at;
            if start < at && !line_splits_no_character(text, highlights, &range) {
                assert(is_text_line(bytes@, range.start as int, range.end as int));
                return false;
            }
            proof {
                assert forall|other: Range<usize>| #[trigger]
                    is_text_line(bytes@, other.start as int, other.end as int) && other.end
                        == at implies styled_on_chars(text@, spans(highlights@, other)) by {
                    if other.start < start {
                        assert(bytes@[start - 1] == NEWLINE);
                    } else if start < other.start {
                        assert(bytes@[other.start - 1] == NEWLINE);
                    }
                    assert(other == range);
                }
            }
            if at == len {
                return true;
            }
            start = at + 1;
        }
        at = at + 1;
    }
}

/// Tells whether a flow can be laid out: its length can be counted, and no
/// span that a highlight sets in another font splits a character.
pub fn can_lay_out<K: Kit>(items: &[MeasureItem<K>]) -> (r: bool)
    ensures
        r == (flow_len(views(items@)) <= usize::MAX && flow_on_chars(views(items@))),
{
    let ghost all = views(items@);
    if checked_len(items).is_none() {
        return false;
    }
    for ix in 0..items.len()
        invariant
            all == views(items@),
            forall|i: int|
                #![trigger all[i]]
                0 <= i < ix ==> match all[i] {
                    ItemView::Text { text, highlights, .. } => text_on_chars(text, highlights),
                    _ => true,
                },
    {
        assert(all[ix as int] == items@[ix as int]@);
        if let MeasureItem::Text { text, highlights, .. } = &items[ix] {
            if !text_splits_no_character(text.as_str(), highlights) {
                return false;
            }
        }
    }
    true
}

proof fn lemma_styled_ends_on_chars<K: Kit>(
    text: Seq<char>,
    highlights: Seq<(Range<usize>, InlineHighlight<K>)>,
    range: Range<usize>,
    n: int,
)
    requires
        0 <= n <= highlights.len(),
        on_char(text, range.start as int),
        on_char(text, range.end as int),
        forall|i: int|
            #![trigger highlights[i]]
            0 <= i < highlights.len() && highlights[i].1.font_family is Some ==> on_char(
                text,
                highlights[i].0.start as int,
            ) && on_char(text, highlights[i].0.end as int),
    ensures
        styled_on_chars(text, spans_of_first(highlights, range, n).0),
        on_char(text, spans_of_first(highlights, range, n).1 as int),
    decreases n,
{
    if n > 0 {
        lemma_styled_ends_on_chars(text, highlights, range, n - 1);
        let (before, _) = spans_of_first(highlights, range, n - 1);
        let (all, _) = spans_of_first(highlights, range, n);
        assert(highlights[n - 1] == highlights[n - 1]);
        assert forall|i: int| #![trigger all[i]] 0 <= i < all.len() && all[i] is Styled implies on_char(
            text,
            all[i].start() as int,
        ) && on_char(text, all[i].end() as int) by {
            if i < before.len() {
                assert(all[i] == before[i]);
            }
        }
    }
}

/// A text can be wrapped where no highlight that sets a family starts or ends
/// inside a character.
pub proof fn law_highlights_on_characters_can_be_wrapped<K: Kit>(
    text: Seq<char>,
    highlights: Seq<(Range<usize>, InlineHighlight<K>)>,
)
    requires
        forall|i: int|
            #![trigger highlights[i]]
            0 <= i < highlights.len() && highlights[i].1.font_family is Some ==> on_char(
                text,
                highlights[i].0.start as int,
            ) && on_char(text, highlights[i].0.end as int),
    ensures
        text_on_chars(text, highlights),
{
    let bytes = encode_utf8(text);
    assert forall|range: Range<usize>| #[trigger]
        is_text_line(bytes, range.start as int, range.end as int) implies styled_on_chars(
        text,
        spans(highlights, range),
    ) by {
        lemma_on_char_ends(text);
        if range.start > 0 {
            lemma_on_char_ascii(text, range.start - 1);
        }
        if range.end < bytes.len() {
            lemma_on_char_ascii(text, range.end as int);
        }
        lemma_styled_ends_on_chars(text, highlights, range, highlights.len() as int);
        let (before, _) = spans_of_first(highlights, range, highlights.len() as int);
        let all = spans(highlights, range);
        assert forall|i: int| #![trigger all[i]] 0 <= i < all.len() && all[i] is Styled implies on_char(
            text,
            all[i].start() as int,
        ) && on_char(text, all[i].end() as int) by {
            assert(all[i] == before[i]);
        }
    }
}

/// The part of `line` that lies in item `ix`, measured from where the item
/// starts.
pub open spec fn local_range<K: Kit>(
    items: Seq<ItemView<K>>,
    ix: int,
    line: Range<usize>,
) -> Range<usize> {
    let (start, end) = (offset(items, ix), offset(items, ix + 1));
    Range {
        start: (if line.start < start { 0 } else { line.start - start }) as usize,
        end: (if line.end < end { line.end - start } else { end - start }) as usize,
    }
}

/// Whether item `ix` reaches into `line`.
pub open spec fn reaches<K: Kit>(items: Seq<ItemView<K>>, ix: int, line: Range<usize>) -> bool {
    offset(items, ix + 1) > line.start && offset(items, ix) < line.end
}

/// Whether `out` is what item `ix` puts into `line` for the line wrapper: its
/// part of a text, an image or object as one element.
pub open spec fn is_item_fragments<K: Kit, B: Backend<K>>(
    backend: &B,
    typography: &InlineFlowTypography<K>,
    items: Seq<ItemView<K>>,
    image_sizes: Seq<Option<Size<K::Num>>>,
    objects: Seq<Option<MeasuredInlineObject<K>>>,
    wrap_width: K::Num,
    line: Range<usize>,
    ix: int,
    out: Seq<WrapView<K::Num>>,
) -> bool {
    if !reaches(items, ix, line) {
        out.len() == 0
    } else {
        match items[ix] {
            ItemView::Text { text, highlights, .. } => {
                let range = local_range(items, ix, line);
                if range.start < range.end {
                    is_wrap_text(backend, typography, highlights, wrap_width, text, range, out) && cuts(
                        out,
                        text_slice(text, range.start as int, range.end as int),
                    )
                } else {
                    out.len() == 0
                }
            },
            ItemView::Object { .. } => out == seq![
                WrapView::Element { width: objects[ix]->0.metrics.size.width, len: 1 },
            ],
            ItemView::Image { .. } => out == seq![
                WrapView::Element { width: image_sizes[ix]->0.width, len: 1 },
            ],
        }
    }
}

/// Whether `groups` are what the first items put into `line`.
pub open spec fn is_item_groups<K: Kit, B: Backend<K>>(
    backend: &B,
    typography: &InlineFlowTypography<K>,
    items: Seq<ItemView<K>>,
    image_sizes: Seq<Option<Size<K::Num>>>,
    objects: Seq<Option<MeasuredInlineObject<K>>>,
    wrap_width: K::Num,
    line: Range<usize>,
    groups: Seq<Seq<WrapView<K::Num>>>,
) -> bool {
    forall|ix: int|
        #![trigger groups[ix]]
        0 <= ix < groups.len() ==> is_item_fragments(
            backend,
            typography,
            items,
            image_sizes,
            objects,
            wrap_width,
            line,
            ix,
            groups[ix],
        )
}

/// Whether `out` is what a line holds for the line wrapper.
pub open spec fn is_line_fragments<K: Kit, B: Backend<K>>(
    backend: &B,
    typography: &InlineFlowTypography<K>,
    items: Seq<ItemView<K>>,
    image_sizes: Seq<Option<Size<K::Num>>>,
    objects: Seq<Option<MeasuredInlineObject<K>>>,
    wrap_width: K::Num,
    line: Range<usize>,
    out: Seq<WrapView<K::Num>>,
) -> bool {
    exists|groups: Seq<Seq<WrapView<K::Num>>>|
        groups.len() == items.len() && out == groups.flatten() && #[trigger] is_item_groups(
            backend,
            typography,
            items,
            image_sizes,
            objects,
            wrap_width,
            line,
            groups,
        )
}

/// Whether `line` runs from one line break of `flow` to the next.
pub open spec fn is_hard_line(flow: Seq<Unit>, line: Range<usize>) -> bool {
    &&& line.start <= line.end <= flow.len()
    &&& line.start == 0 || breaks_at(flow, line.start - 1)
    &&& line.end == flow.len() || breaks_at(flow, line.end as int)
    &&& unbroken(flow, line.start as int, line.end as int)
}

/// The part of a hard line in a text is a line of that text.
pub proof fn lemma_local_line<K: Kit>(items: Seq<ItemView<K>>, ix: int, line: Range<usize>)
    requires
        0 <= ix < items.len(),
        items[ix] is Text,
        flow_len(items) <= usize::MAX,
        is_hard_line(flow_content(items), line),
        reaches(items, ix, line),
        local_range(items, ix, line).start < local_range(items, ix, line).end,
    ensures
        is_text_line(
            encode_utf8(items[ix]->Text_text),
            local_range(items, ix, line).start as int,
            local_range(items, ix, line).end as int,
        ),
        on_char(items[ix]->Text_text, local_range(items, ix, line).start as int),
        on_char(items[ix]->Text_text, local_range(items, ix, line).end as int),
{
    let flow = flow_content(items);
    let start = offset(items, ix);
    let text = items[ix]->Text_text;
    let bytes = encode_utf8(text);
    let range = local_range(items, ix, line);
    lemma_content_at(items, ix);
    lemma_offset_step(items, ix);
    assert forall|at: int| 0 <= at < bytes.len() implies (#[trigger] bytes[at] == NEWLINE) == (
    breaks_at(flow, start + at)) by {
        assert(flow[start + at] == content(items[ix])[at]);
    }
    lemma_on_char_ends(text);
    if range.start > 0 {
        assert(bytes[range.start - 1] == NEWLINE);
        lemma_on_char_ascii(text, range.start - 1);
    }
    if range.end < bytes.len() {
        assert(bytes[range.end as int] == NEWLINE);
        lemma_on_char_ascii(text, range.end as int);
    }
}

/// What `line` holds for the line wrapper. Its lengths add up to the length
/// of the line.
pub fn line_wrap_fragments<'a, K: Kit, B: Backend<K>>(
    items: &'a [MeasureItem<K>],
    image_sizes: &[Option<Size<K::Num>>],
    objects: &[Option<MeasuredInlineObject<K>>],
    typography: &InlineFlowTypography<K>,
    wrap_width: K::Num,
    line: &Range<usize>,
    backend: &B,
) -> (r: Vec<WrapFragment<'a, K::Num>>)
    requires
        flow_len(views(items@)) <= usize::MAX,
        atoms_measured(views(items@), image_sizes@, objects@),
        flow_on_chars(views(items@)),
        is_hard_line(flow_content(views(items@)), *line),
    ensures
        is_line_fragments(
            backend,
            typography,
            views(items@),
            image_sizes@,
            objects@,
            wrap_width,
            *line,
            wrap_views(r@),
        ),
        wrap_len(wrap_views(r@)) == line.end - line.start,
{
    let ghost all = views(items@);
    let mut fragments: Vec<WrapFragment<'a, K::Num>> = Vec::new();
    let ghost mut groups: Seq<Seq<WrapView<K::Num>>> = Seq::empty();
    let mut item_start: usize = 0;
    proof {
        lemma_offset_ends(all);
        assert(groups.flatten() =~= Seq::empty());
        assert(wrap_views(fragments@) =~= groups.flatten());
    }
    for ix in 0..items.len()
        invariant
            all == views(items@),
            flow_len(all) <= usize::MAX,
            atoms_measured(all, image_sizes@, objects@),
            flow_on_chars(all),
            is_hard_line(flow_content(all), *line),
            item_start == offset(all, ix as int),
            groups.len() == ix,
            is_item_groups(
                backend,
                typography,
                all,
                image_sizes@,
                objects@,
                wrap_width,
                *line,
                groups,
            ),
            wrap_views(fragments@) == groups.flatten(),
            wrap_len(groups.flatten()) == if item_start <= line.start {
                0
            } else if item_start < line.end {
                item_start - line.start
            } else {
                line.end - line.start
            },
    {
        let ghost before = wrap_views(fragments@);
        let ghost mut added: Seq<WrapView<K::Num>> = Seq::empty();
        proof {
            lemma_offset_step(all, ix as int);
            lemma_offset_monotone(all, ix + 1, all.len() as int);
            assert(all[ix as int] == items@[ix as int]@);
            assert(before + added =~= before);
        }
        let item = &items[ix];
        let item_end: usize = item_start + item.len();
        if item_end > line.start && item_start < line.end {
            match item {
                MeasureItem::Text { text, highlights, .. } => {
                    let start: usize = if line.start < item_start {
                        0
                    } else {
                        line.start - item_start
                    };
                    let end: usize = if line.end < item_end {
                        line.end - item_start
                    } else {
                        item_end - item_start
                    };
                    if start < end {
                        proof {
                            lemma_local_line(all, ix as int, *line);
                            lemma_spans_on_chars(text@, highlights@, start..end);
                        }
                        push_text_wrap_fragments(
                            &mut fragments,
                            text.as_str(),
                            highlights,
                            &(start..end),
                            typography,
                            wrap_width,
                            backend,
                        );
                        proof {
                            added = choose|added: Seq<WrapView<K::Num>>|
                                wrap_views(fragments@) == before + added && #[trigger] is_wrap_text(
                                    backend,
                                    typography,
                                    highlights@,
                                    wrap_width,
                                    text@,
                                    start..end,
                                    added,
                                ) && (start < end ==> cuts(
                                    added,
                                    text_slice(text@, start as int, end as int),
                                ));
                            lemma_cuts_len(added, text_slice(text@, start as int, end as int));
                            lemma_slice_bytes(text@, start as int, end as int);
                        }
                    }
                },
                MeasureItem::Object { .. } => {
                    let object = objects[ix].as_ref().unwrap();
                    fragments.push(
                        WrapFragment::Element { width: object.metrics.size.width, len: IMAGE_LEN },
                    );
                    proof {
                        added = seq![
                            WrapView::Element { width: object.metrics.size.width, len: 1 },
                        ];
                        assert(wrap_views(fragments@) =~= before + added);
                        reveal_with_fuel(wrap_len, 2);
                    }
                },
                MeasureItem::Image { .. } => {
                    let size = image_sizes[ix].unwrap();
                    fragments.push(WrapFragment::Element { width: size.width, len: IMAGE_LEN });
                    proof {
                        added = seq![WrapView::Element { width: size.width, len: 1 }];
                        assert(wrap_views(fragments@) =~= before + added);
                        reveal_with_fuel(wrap_len, 2);
                    }
                },
            }
        }
        proof {
            groups.lemma_flatten_push(added);
            lemma_wrap_len_append(groups.flatten(), added);
            groups = groups.push(added);
        }
        item_start = item_end;
    }
    fragments
}

/// Whether `out` are the lines that `line` is wrapped to: the window was asked
/// where to break what the line holds, and it was broken there.
pub open spec fn is_wrapped_line<'a, K: Kit, B: Backend<K>>(
    backend: &B,
    typography: &InlineFlowTypography<K>,
    items: Seq<ItemView<K>>,
    image_sizes: Seq<Option<Size<K::Num>>>,
    objects: Seq<Option<MeasuredInlineObject<K>>>,
    wrap_width: K::Num,
    line: Range<usize>,
    out: Seq<Range<usize>>,
) -> bool {
    exists|fragments: Vec<WrapFragment<'a, K::Num>>, breaks: Vec<usize>|
        is_line_fragments(
            backend,
            typography,
            items,
            image_sizes,
            objects,
            wrap_width,
            line,
            wrap_views(fragments@),
        ) && wrap_len(wrap_views(fragments@)) == line.end - line.start && #[trigger] call_ensures(
            B::wrap_line,
            (
                backend,
                &fragments,
                &typography.text_style,
                typography.spec_font_pixels(),
                wrap_width,
            ),
            breaks,
        ) && out == pieces(line, breaks@)
}

/// Whether `groups` are the lines that the given hard lines are wrapped to.
pub open spec fn is_wrapped_lines<K: Kit, B: Backend<K>>(
    backend: &B,
    typography: &InlineFlowTypography<K>,
    items: Seq<ItemView<K>>,
    image_sizes: Seq<Option<Size<K::Num>>>,
    objects: Seq<Option<MeasuredInlineObject<K>>>,
    wrap_width: K::Num,
    lines: Seq<Range<usize>>,
    groups: Seq<Seq<Range<usize>>>,
) -> bool {
    &&& groups.len() == lines.len()
    &&& forall|i: int|
        #![trigger groups[i]]
        0 <= i < groups.len() ==> is_wrapped_line(
            backend,
            typography,
            items,
            image_sizes,
            objects,
            wrap_width,
            lines[i],
            groups[i],
        )
}

/// Whether `out` are the lines of a flow: its hard lines where nothing wraps
/// it, and otherwise what those are wrapped to, one after the other.
pub open spec fn is_line_ranges<K: Kit, B: Backend<K>>(
    backend: &B,
    typography: &InlineFlowTypography<K>,
    items: Seq<ItemView<K>>,
    image_sizes: Seq<Option<Size<K::Num>>>,
    objects: Seq<Option<MeasuredInlineObject<K>>>,
    wrap_width: Option<K::Num>,
    out: Seq<Range<usize>>,
) -> bool {
    match wrap_width {
        None => is_hard_lines(flow_content(items), out),
        Some(wrap_width) => exists|lines: Seq<Range<usize>>, groups: Seq<Seq<Range<usize>>>|
            out == groups.flatten() && #[trigger] is_hard_lines(flow_content(items), lines)
                && #[trigger] is_wrapped_lines(
                backend,
                typography,
                items,
                image_sizes,
                objects,
                wrap_width,
                lines,
                groups,
            ),
    }
}

/// Breaks a flow into lines, at its line feeds and, where there is a
/// `wrap_width`, where the window breaks it to fit.
pub fn line_ranges<K: Kit, B: Backend<K>>(
    items: &[MeasureItem<K>],
    image_sizes: &[Option<Size<K::Num>>],
    objects: &[Option<MeasuredInlineObject<K>>],
    typography: &InlineFlowTypography<K>,
    wrap_width: Option<K::Num>,
    backend: &B,
) -> (r: Vec<Range<usize>>)
    requires
        flow_len(views(items@)) <= usize::MAX,
        wrap_width is Some ==> atoms_measured(views(items@), image_sizes@, objects@)
            && flow_on_chars(views(items@)),
    ensures
        is_line_ranges(
            backend,
            typography,
            views(items@),
            image_sizes@,
            objects@,
            wrap_width,
            r@,
        ),
{
    let lines = hard_lines(items);
    let wrap_width: K::Num = match wrap_width {
        Some(wrap_width) => wrap_width,
        None => {
            return lines;
        },
    };
    let ghost all = views(items@);
    let font_size: K::Num = typography.font_pixels();
    let mut ranges: Vec<Range<usize>> = Vec::new();
    let ghost mut groups: Seq<Seq<Range<usize>>> = Seq::empty();
    assert(groups.flatten() =~= Seq::empty());
    for ix in 0..lines.len()
        invariant
            all == views(items@),
            flow_len(all) <= usize::MAX,
            atoms_measured(all, image_sizes@, objects@),
            flow_on_chars(all),
            font_size == typography.spec_font_pixels(),
            is_hard_lines(flow_content(all), lines@),
            is_wrapped_lines(
                backend,
                typography,
                all,
                image_sizes@,
                objects@,
                wrap_width,
                lines@.take(ix as int),
                groups,
            ),
            ranges@ == groups.flatten(),
    {
        let line = &lines[ix];
        proof {
            if ix > 0 {
                assert(lines@[ix - 1].end + 1 == line.start);
            }
        }
        let fragments = line_wrap_fragments(
            items,
            image_sizes,
            objects,
            typography,
            wrap_width,
            line,
            backend,
        );
        let breaks = backend.wrap_line(&fragments, &typography.text_style, font_size, wrap_width);
        let mut cut = cut_line(line, breaks.as_slice());
        let ghost added = cut@;
        proof {
            assert(is_wrapped_line(
                backend,
                typography,
                all,
                image_sizes@,
                objects@,
                wrap_width,
                *line,
                added,
            ));
            groups.lemma_flatten_push(added);
            groups = groups.push(added);
        }
        ranges.append(&mut cut);
    }
    assert(lines@.take(lines@.len() as int) =~= lines@);
    ranges
}

} // verus!
