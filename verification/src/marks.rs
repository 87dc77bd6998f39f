//! Marks on ranges of a text: links and highlights.

use std::ops::Range;
use std::sync::Arc;

use vstd::prelude::*;

use crate::kit::Kit;
use crate::number::{is_same_option, same_option, Same};

verus! {

impl<T: Same> Same for Arc<T> {
    open spec fn same(self, other: Self) -> bool {
        (*self).same(*other)
    }

    fn is_same(&self, other: &Self) -> (b: bool) {
        (**self).is_same(&**other)
    }
}

/// How a range of a text looks.
///
/// A family means that the range is set in another font than the text around
/// it; a size scale, that it is a code span, whose background is a box of its
/// own.
pub struct InlineHighlight<K: Kit> {
    pub style: K::Style,
    pub background_color: Option<K::Color>,
    pub font_family: Option<Arc<K::Family>>,
    pub font_size_scale: Option<K::Num>,
}

impl<K: Kit> InlineHighlight<K> {
    /// The highlight without a background.
    pub open spec fn without_background(self) -> InlineHighlight<K> {
        InlineHighlight { background_color: None, ..self }
    }

    /// A highlight of the same look.
    pub fn copied(&self) -> (r: InlineHighlight<K>)
        ensures
            r == *self,
    {
        InlineHighlight {
            style: self.style,
            background_color: self.background_color,
            font_family: match &self.font_family {
                Some(family) => Some(family.clone()),
                None => None,
            },
            font_size_scale: self.font_size_scale,
        }
    }
}

impl<K: Kit> Same for InlineHighlight<K> {
    open spec fn same(self, other: Self) -> bool {
        &&& self.style.same(other.style)
        &&& same_option(self.background_color, other.background_color)
        &&& same_option(self.font_family, other.font_family)
        &&& same_option(self.font_size_scale, other.font_size_scale)
    }

    fn is_same(&self, other: &Self) -> (b: bool) {
        self.style.is_same(&other.style) && is_same_option(
            &self.background_color,
            &other.background_color,
        ) && is_same_option(&self.font_family, &other.font_family) && is_same_option(
            &self.font_size_scale,
            &other.font_size_scale,
        )
    }
}

/// Links on ranges of a text.
pub type Links<K> = Vec<(Range<usize>, Arc<<K as Kit>::Link>)>;

/// Highlights on ranges of a text.
pub type Highlights<K> = Vec<(Range<usize>, InlineHighlight<K>)>;

/// A list of the same links.
pub fn copied_links<L>(links: &Vec<(Range<usize>, Arc<L>)>) -> (r: Vec<(Range<usize>, Arc<L>)>)
    ensures
        r@ == links@,
{
    let mut out: Vec<(Range<usize>, Arc<L>)> = Vec::new();
    for i in 0..links.len()
        invariant
            out@ =~= links@.take(i as int),
    {
        let (range, link) = (&links[i].0, &links[i].1);
        out.push((range.start..range.end, link.clone()));
    }
    out
}

/// A list of the same highlights.
pub fn copied_highlights<K: Kit>(highlights: &Highlights<K>) -> (r: Highlights<K>)
    ensures
        r@ == highlights@,
{
    let mut out: Highlights<K> = Vec::new();
    for i in 0..highlights.len()
        invariant
            out@ =~= highlights@.take(i as int),
    {
        let (range, highlight) = (&highlights[i].0, &highlights[i].1);
        out.push((range.start..range.end, highlight.copied()));
    }
    out
}

/// Whether two lists put the same marks on the same ranges, in the same order.
pub open spec fn same_marks<T: Same>(a: Seq<(Range<usize>, T)>, b: Seq<(Range<usize>, T)>) -> bool {
    &&& a.len() == b.len()
    &&& forall|i: int|
        #![trigger a[i]]
        #![trigger b[i]]
        0 <= i < a.len() ==> a[i].0 == b[i].0 && a[i].1.same(b[i].1)
}

/// Compares two lists of marks.
pub fn is_same_marks<T: Same>(a: &Vec<(Range<usize>, T)>, b: &Vec<(Range<usize>, T)>) -> (r: bool)
    ensures
        r == same_marks(a@, b@),
{
    if a.len() != b.len() {
        return false;
    }
    for i in 0..a.len()
        invariant
            a@.len() == b@.len(),
            forall|j: int|
                #![trigger a@[j]]
                #![trigger b@[j]]
                0 <= j < i ==> a@[j].0 == b@[j].0 && a@[j].1.same(b@[j].1),
    {
        let (x, y) = (&a[i], &b[i]);
        if x.0.start != y.0.start || x.0.end != y.0.end || !x.1.is_same(&y.1) {
            assert(!(a@[i as int].0 == b@[i as int].0 && a@[i as int].1.same(b@[i as int].1)));
            return false;
        }
        assert(x.0 == y.0);
    }
    true
}

/// The part of `range` inside `start..end`, measured from `start`.
pub open spec fn clip(range: Range<usize>, start: usize, end: usize) -> Option<Range<usize>> {
    let lo = if range.start < start { start } else { range.start };
    let hi = if range.end < end { range.end } else { end };
    if lo < hi {
        Some(Range { start: (lo - start) as usize, end: (hi - start) as usize })
    } else {
        None
    }
}

/// The marks that reach into `start..end`, each on the part of its range that
/// does, measured from `start`.
pub open spec fn clipped<T>(ranges: Seq<(Range<usize>, T)>, start: usize, end: usize) -> Seq<
    (Range<usize>, T),
>
    decreases ranges.len(),
{
    if ranges.len() == 0 {
        Seq::empty()
    } else {
        let rest = clipped(ranges.drop_last(), start, end);
        match clip(ranges.last().0, start, end) {
            Some(range) => rest.push((range, ranges.last().1)),
            None => rest,
        }
    }
}

/// Clipping two lists one after the other clips their concatenation.
pub proof fn lemma_clipped_append<T>(
    a: Seq<(Range<usize>, T)>,
    b: Seq<(Range<usize>, T)>,
    start: usize,
    end: usize,
)
    ensures
        clipped(a + b, start, end) == clipped(a, start, end) + clipped(b, start, end),
    decreases b.len(),
{
    if b.len() == 0 {
        assert(a + b =~= a);
    } else {
        lemma_clipped_append(a, b.drop_last(), start, end);
        assert((a + b).drop_last() =~= a + b.drop_last());
    }
}

/// The marks on the byte `at` of a text, in order.
pub open spec fn marks_at<T>(ranges: Seq<(Range<usize>, T)>, at: int) -> Seq<T>
    decreases ranges.len(),
{
    if ranges.len() == 0 {
        Seq::empty()
    } else {
        let before = marks_at(ranges.drop_last(), at);
        let (range, mark) = ranges.last();
        if range.start <= at < range.end {
            before.push(mark)
        } else {
            before
        }
    }
}

/// Clipping keeps the marks of every byte: each byte of `start..end` has the
/// same marks in the same order before and after.
pub proof fn law_clipping_keeps_marks<T>(
    ranges: Seq<(Range<usize>, T)>,
    start: usize,
    end: usize,
    at: int,
)
    requires
        start <= at < end,
    ensures
        marks_at(clipped(ranges, start, end), at - start) == marks_at(ranges, at),
    decreases ranges.len(),
{
    if ranges.len() > 0 {
        law_clipping_keeps_marks(ranges.drop_last(), start, end, at);
        let rest = clipped(ranges.drop_last(), start, end);
        if let Some(range) = clip(ranges.last().0, start, end) {
            assert(rest.push((range, ranges.last().1)).drop_last() =~= rest);
        }
    }
}

/// Clipped marks lie in the part they were clipped to, and none is empty.
pub proof fn law_clipped_marks_lie_inside<T>(
    ranges: Seq<(Range<usize>, T)>,
    start: usize,
    end: usize,
    i: int,
)
    requires
        0 <= i < clipped(ranges, start, end).len(),
    ensures
        clipped(ranges, start, end)[i].0.start < clipped(ranges, start, end)[i].0.end <= end
            - start,
    decreases ranges.len(),
{
    let rest = clipped(ranges.drop_last(), start, end);
    if i < rest.len() {
        law_clipped_marks_lie_inside(ranges.drop_last(), start, end, i);
    }
}

/// The slice of a slice is one slice.
pub proof fn law_slice_of_a_slice<T>(
    ranges: Seq<(Range<usize>, T)>,
    start: usize,
    end: usize,
    inner_start: usize,
    inner_end: usize,
)
    requires
        start + inner_start <= usize::MAX,
        start + inner_end <= usize::MAX,
    ensures
        clipped(clipped(ranges, start, end), inner_start, inner_end) == clipped(
            ranges,
            (start + inner_start) as usize,
            if start + inner_end < end {
                (start + inner_end) as usize
            } else {
                end
            },
        ),
    decreases ranges.len(),
{
    if ranges.len() > 0 {
        law_slice_of_a_slice(ranges.drop_last(), start, end, inner_start, inner_end);
        let rest = clipped(ranges.drop_last(), start, end);
        if let Some(range) = clip(ranges.last().0, start, end) {
            assert(rest.push((range, ranges.last().1)).drop_last() =~= rest);
        }
    }
}

/// A slice over everything changes nothing.
pub proof fn law_slice_over_everything<T>(ranges: Seq<(Range<usize>, T)>, len: usize)
    requires
        forall|i: int|
            #![trigger ranges[i]]
            0 <= i < ranges.len() ==> ranges[i].0.start < ranges[i].0.end <= len,
    ensures
        clipped(ranges, 0, len) == ranges,
    decreases ranges.len(),
{
    if ranges.len() > 0 {
        let before = ranges.drop_last();
        assert forall|i: int| #![trigger before[i]] 0 <= i < before.len() implies before[i].0.start
            < before[i].0.end <= len by {
            assert(before[i] == ranges[i]);
        }
        law_slice_over_everything(before, len);
        assert(ranges.last() == ranges[ranges.len() - 1]);
        assert(clipped(ranges, 0, len) =~= ranges);
    }
}

/// Hands `map` every mark that reaches into `start..end`, clipped to it and
/// measured from `start`, and returns what it makes of them.
pub fn slice_ranges<T, U>(
    ranges: &[(Range<usize>, T)],
    start: usize,
    end: usize,
    map: impl Fn(Range<usize>, &T) -> U,
) -> (r: Vec<U>)
    requires
        forall|i: int|
            #![trigger clipped(ranges@, start, end)[i]]
            0 <= i < clipped(ranges@, start, end).len() ==> map.requires(
                (clipped(ranges@, start, end)[i].0, &clipped(ranges@, start, end)[i].1),
            ),
    ensures
        r@.len() == clipped(ranges@, start, end).len(),
        forall|i: int|
            #![trigger r@[i]]
            0 <= i < r@.len() ==> map.ensures(
                (clipped(ranges@, start, end)[i].0, &clipped(ranges@, start, end)[i].1),
                r@[i],
            ),
{
    let mut out: Vec<U> = Vec::new();
    for ix in 0..ranges.len()
        invariant
            forall|i: int|
                #![trigger clipped(ranges@, start, end)[i]]
                0 <= i < clipped(ranges@, start, end).len() ==> map.requires(
                    (clipped(ranges@, start, end)[i].0, &clipped(ranges@, start, end)[i].1),
                ),
            out@.len() == clipped(ranges@.take(ix as int), start, end).len(),
            forall|i: int|
                #![trigger out@[i]]
                0 <= i < out@.len() ==> map.ensures(
                    (
                        clipped(ranges@.take(ix as int), start, end)[i].0,
                        &clipped(ranges@.take(ix as int), start, end)[i].1,
                    ),
                    out@[i],
                ),
    {
        assert(ranges@.take(ix + 1).drop_last() =~= ranges@.take(ix as int));
        let (range, value) = (&ranges[ix].0, &ranges[ix].1);
        let clipped_start: usize = if range.start < start { start } else { range.start };
        let clipped_end: usize = if range.end < end { range.end } else { end };
        if clipped_start < clipped_end {
            proof {
                let at = clipped(ranges@.take(ix as int), start, end).len() as int;
                lemma_clipped_append(ranges@.take(ix + 1), ranges@.skip(ix + 1), start, end);
                assert(ranges@.take(ix + 1) + ranges@.skip(ix + 1) =~= ranges@);
                assert(clipped(ranges@, start, end)[at] == clipped(
                    ranges@.take(ix + 1),
                    start,
                    end,
                )[at]);
            }
            out.push(map(clipped_start - start..clipped_end - start, value));
        }
    }
    assert(ranges@.take(ranges@.len() as int) =~= ranges@);
    out
}

} // verus!
