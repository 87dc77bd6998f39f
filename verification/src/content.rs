//! A flow as one sequence of bytes and atoms.

use std::ops::Range;

use vstd::prelude::*;
use vstd::utf8::encode_utf8;

use crate::item::{views, ItemView, MeasureItem};
use crate::kit::Kit;

verus! {

/// A step of a flow: a byte of a text, or an image or object.
pub enum Unit {
    Byte(u8),
    Atom,
}

/// The units of the bytes of a text.
pub open spec fn text_units(bytes: Seq<u8>) -> Seq<Unit> {
    bytes.map_values(|byte: u8| Unit::Byte(byte))
}

/// The units of an item.
pub open spec fn content<K: Kit>(item: ItemView<K>) -> Seq<Unit> {
    match item {
        ItemView::Text { text, .. } => text_units(encode_utf8(text)),
        _ => seq![Unit::Atom],
    }
}

/// The units of all items, one item after the other.
pub open spec fn flow_content<K: Kit>(items: Seq<ItemView<K>>) -> Seq<Unit>
    decreases items.len(),
{
    if items.len() == 0 {
        Seq::empty()
    } else {
        flow_content(items.drop_last()) + content(items.last())
    }
}

/// How many units a flow has.
pub open spec fn flow_len<K: Kit>(items: Seq<ItemView<K>>) -> nat {
    flow_content(items).len()
}

/// Where item `ix` starts in its flow.
pub open spec fn offset<K: Kit>(items: Seq<ItemView<K>>, ix: int) -> int {
    flow_len(items.take(ix)) as int
}

/// The items follow one another without gaps.
pub proof fn lemma_offset_step<K: Kit>(items: Seq<ItemView<K>>, ix: int)
    requires
        0 <= ix < items.len(),
    ensures
        offset(items, ix + 1) == offset(items, ix) + items[ix].len(),
        content(items[ix]).len() == items[ix].len(),
{
    assert(items.take(ix + 1).drop_last() =~= items.take(ix));
}

/// A flow is the sum of its parts.
pub proof fn lemma_flow_content_append<K: Kit>(a: Seq<ItemView<K>>, b: Seq<ItemView<K>>)
    ensures
        flow_content(a + b) == flow_content(a) + flow_content(b),
    decreases b.len(),
{
    if b.len() == 0 {
        assert(a + b =~= a);
    } else {
        lemma_flow_content_append(a, b.drop_last());
        assert((a + b).drop_last() =~= a + b.drop_last());
        assert(flow_content(a + b) =~= flow_content(a) + flow_content(b));
    }
}

/// Later items start later, and none starts past the end of the flow.
pub proof fn lemma_offset_monotone<K: Kit>(items: Seq<ItemView<K>>, i: int, j: int)
    requires
        0 <= i <= j <= items.len(),
    ensures
        0 <= offset(items, i) <= offset(items, j) <= flow_len(items),
{
    assert(items.take(i) + items.subrange(i, j) =~= items.take(j));
    assert(items.take(j) + items.skip(j) =~= items);
    lemma_flow_content_append(items.take(i), items.subrange(i, j));
    lemma_flow_content_append(items.take(j), items.skip(j));
}

/// The units of item `ix` stand in the flow from its offset on.
pub proof fn lemma_content_at<K: Kit>(items: Seq<ItemView<K>>, ix: int)
    requires
        0 <= ix < items.len(),
    ensures
        0 <= offset(items, ix) <= offset(items, ix + 1) <= flow_len(items),
        flow_content(items).subrange(offset(items, ix), offset(items, ix + 1)) == content(
            items[ix],
        ),
{
    lemma_offset_step(items, ix);
    lemma_offset_monotone(items, ix, ix + 1);
    assert(items.take(ix + 1).drop_last() =~= items.take(ix));
    assert(items.take(ix + 1) + items.skip(ix + 1) =~= items);
    lemma_flow_content_append(items.take(ix + 1), items.skip(ix + 1));
    assert(flow_content(items).subrange(offset(items, ix), offset(items, ix + 1)) =~= content(
        items[ix],
    ));
}

/// A flow starts at nothing and ends after its last item.
pub proof fn lemma_offset_ends<K: Kit>(items: Seq<ItemView<K>>)
    ensures
        offset(items, 0) == 0,
        offset(items, items.len() as int) == flow_len(items),
{
    assert(items.take(items.len() as int) =~= items);
}

/// How many units the flow has.
pub fn total_len<K: Kit>(items: &[MeasureItem<K>]) -> (r: usize)
    requires
        flow_len(views(items@)) <= usize::MAX,
    ensures
        r == flow_len(views(items@)),
{
    let ghost all = views(items@);
    proof {
        lemma_offset_ends(all);
    }
    let mut total: usize = 0;
    for ix in 0..items.len()
        invariant
            all == views(items@),
            flow_len(all) <= usize::MAX,
            total == offset(all, ix as int),
    {
        proof {
            lemma_offset_step(all, ix as int);
            lemma_offset_monotone(all, ix + 1, all.len() as int);
            assert(all[ix as int] == items@[ix as int]@);
        }
        total = total + items[ix].len();
    }
    total
}

/// How many units the flow has, where that can be counted.
pub fn checked_len<K: Kit>(items: &[MeasureItem<K>]) -> (r: Option<usize>)
    ensures
        r == (if flow_len(views(items@)) <= usize::MAX {
            Some(flow_len(views(items@)) as usize)
        } else {
            None
        }),
{
    let ghost all = views(items@);
    proof {
        lemma_offset_ends(all);
    }
    let mut total: usize = 0;
    for ix in 0..items.len()
        invariant
            all == views(items@),
            total == offset(all, ix as int),
    {
        proof {
            lemma_offset_step(all, ix as int);
            lemma_offset_monotone(all, ix + 1, all.len() as int);
            assert(all[ix as int] == items@[ix as int]@);
        }
        match total.checked_add(items[ix].len()) {
            Some(sum) => {
                total = sum;
            },
            None => {
                return None;
            },
        }
    }
    Some(total)
}

/// A line feed.
pub const NEWLINE: u8 = 10;

/// Whether a flow breaks its line at `at`.
pub open spec fn breaks_at(flow: Seq<Unit>, at: int) -> bool {
    flow[at] == Unit::Byte(NEWLINE)
}

/// Whether no line break stands in `start..end`.
pub open spec fn unbroken(flow: Seq<Unit>, start: int, end: int) -> bool {
    forall|at: int| start <= at < end ==> !#[trigger] breaks_at(flow, at)
}

/// Whether `lines` are the stretches of `flow` between its line breaks, in
/// order: the first starts the flow, the last ends it, and each of the others
/// ends at a line break that the next one starts after.
pub open spec fn is_hard_lines(flow: Seq<Unit>, lines: Seq<Range<usize>>) -> bool {
    &&& lines.len() > 0
    &&& lines[0].start == 0
    &&& lines.last().end == flow.len()
    &&& forall|i: int|
        #![trigger lines[i]]
        0 <= i < lines.len() ==> lines[i].start <= lines[i].end <= flow.len() && unbroken(
            flow,
            lines[i].start as int,
            lines[i].end as int,
        )
    &&& forall|i: int|
        #![trigger lines[i]]
        0 <= i < lines.len() - 1 ==> breaks_at(flow, lines[i].end as int)
    &&& forall|i: int, j: int|
        #![trigger lines[i], lines[j]]
        0 <= i && j == i + 1 && j < lines.len() ==> lines[j].start == lines[i].end + 1
}

proof fn lemma_hard_line_same(flow: Seq<Unit>, a: Seq<Range<usize>>, b: Seq<Range<usize>>, i: int)
    requires
        is_hard_lines(flow, a),
        is_hard_lines(flow, b),
        0 <= i < a.len(),
    ensures
        i < b.len(),
        a[i] == b[i],
        i == a.len() - 1 <==> i == b.len() - 1,
    decreases i,
{
    if i > 0 {
        lemma_hard_line_same(flow, a, b, i - 1);
        assert(a[i - 1].end + 1 == a[i].start);
        assert(b[i - 1].end + 1 == b[i].start);
    }
    let (x, y) = (a[i], b[i]);
    assert(x.end == flow.len() || breaks_at(flow, x.end as int)) by {
        if i == a.len() - 1 {
            assert(x == a.last());
        }
    }
    assert(y.end == flow.len() || breaks_at(flow, y.end as int)) by {
        if i == b.len() - 1 {
            assert(y == b.last());
        }
    }
    if x.end < y.end {
        assert(!breaks_at(flow, x.end as int));
    }
    if y.end < x.end {
        assert(!breaks_at(flow, y.end as int));
    }
    if i < a.len() - 1 {
        assert(a[i + 1].start <= a[i + 1].end <= flow.len());
    }
    if i < b.len() - 1 {
        assert(b[i + 1].start <= b[i + 1].end <= flow.len());
    }
}

/// A flow has one list of hard lines.
pub proof fn law_hard_lines_are_unique(flow: Seq<Unit>, a: Seq<Range<usize>>, b: Seq<Range<usize>>)
    requires
        is_hard_lines(flow, a),
        is_hard_lines(flow, b),
    ensures
        a == b,
{
    lemma_hard_line_same(flow, a, b, a.len() - 1);
    assert forall|i: int| #![trigger a[i]] 0 <= i < a.len() implies a[i] == b[i] by {
        lemma_hard_line_same(flow, a, b, i);
    }
    assert(a =~= b);
}

/// The lines found in the first `upto` units, with another one open since
/// `start`.
spec fn hard_lines_upto(flow: Seq<Unit>, lines: Seq<Range<usize>>, start: int, upto: int) -> bool {
    &&& start <= upto <= flow.len()
    &&& unbroken(flow, start, upto)
    &&& lines.len() == 0 ==> start == 0
    &&& lines.len() > 0 ==> lines[0].start == 0 && start == lines.last().end + 1
    &&& forall|i: int|
        #![trigger lines[i]]
        0 <= i < lines.len() ==> lines[i].start <= lines[i].end < upto && unbroken(
            flow,
            lines[i].start as int,
            lines[i].end as int,
        ) && breaks_at(flow, lines[i].end as int)
    &&& forall|i: int, j: int|
        #![trigger lines[i], lines[j]]
        0 <= i && j == i + 1 && j < lines.len() ==> lines[j].start == lines[i].end + 1
}

/// The lines of a flow before wrapping: its stretches between line feeds.
pub fn hard_lines<K: Kit>(items: &[MeasureItem<K>]) -> (r: Vec<Range<usize>>)
    requires
        flow_len(views(items@)) <= usize::MAX,
    ensures
        is_hard_lines(flow_content(views(items@)), r@),
{
    let ghost all = views(items@);
    let ghost flow = flow_content(all);
    let total: usize = total_len(items);
    let mut lines: Vec<Range<usize>> = Vec::new();
    let mut line_start: usize = 0;
    let mut item_start: usize = 0;
    for ix in 0..items.len()
        invariant
            all == views(items@),
            flow == flow_content(all),
            flow.len() <= usize::MAX,
            item_start == offset(all, ix as int),
            hard_lines_upto(flow, lines@, line_start as int, item_start as int),
    {
        proof {
            lemma_content_at(all, ix as int);
            lemma_offset_step(all, ix as int);
            assert(all[ix as int] == items@[ix as int]@);
        }
        let ghost units = content(all[ix as int]);
        let item = &items[ix];
        match item {
            MeasureItem::Text { text, .. } => {
                let bytes = text.as_str().as_bytes();
                for at in 0..bytes.len()
                    invariant
                        flow.len() <= usize::MAX,
                        units == text_units(bytes@),
                        0 <= item_start <= item_start + units.len() <= flow.len(),
                        flow.subrange(item_start as int, item_start + units.len()) == units,
                        hard_lines_upto(flow, lines@, line_start as int, item_start + at),
                {
                    assert(flow[item_start + at] == units[at as int]);
                    if bytes[at] == NEWLINE {
                        let newline: usize = item_start + at;
                        assert(breaks_at(flow, newline as int));
                        lines.push(line_start..newline);
                        line_start = newline + 1;
                    } else {
                        assert(!breaks_at(flow, item_start + at));
                    }
                }
            },
            MeasureItem::Image { .. } | MeasureItem::Object { .. } => {
                assert(flow[item_start as int] == units[0]);
                assert(!breaks_at(flow, item_start as int));
            },
        }
        item_start = item_start + item.len();
    }
    proof {
        lemma_offset_ends(all);
    }
    lines.push(line_start..total);
    lines
}

} // verus!
