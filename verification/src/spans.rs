//! Taking a text apart for the line wrapper.
//!
//! The wrapper measures text in the font of the flow. A span whose highlight
//! sets another family enters it as measured elements instead.

use std::ops::Range;

use vstd::prelude::*;
use vstd::seq_lib::lemma_flatten_concat;

use crate::backend::{wrap_views, Backend, InlineFlowTypography, WrapFragment, WrapView};
use crate::kit::Kit;
use crate::marks::InlineHighlight;
use crate::number::Number;
use crate::segmentation::{
    grapheme_pieces, piece_views, split_graphemes, split_words, word_pieces,
};
use crate::text::{
    byte_len, lemma_encode_append, lemma_on_char_append, lemma_slice_append, on_char, slice_text,
    text_len, text_slice,
};

verus! {

/// The padding of a code span at each of its ends.
pub open spec fn code_padding<N: Number>() -> N {
    N::spec_ratio(2, 1)
}

/// A stretch of text between breaks in its font.
pub enum TextSpan {
    /// Text in the font of the flow.
    Body { start: usize, end: usize },
    /// Text under the highlight of index `highlight`, which sets a family.
    Styled { start: usize, end: usize, highlight: usize },
}

impl TextSpan {
    pub open spec fn start(self) -> usize {
        match self {
            TextSpan::Body { start, .. } => start,
            TextSpan::Styled { start, .. } => start,
        }
    }

    pub open spec fn end(self) -> usize {
        match self {
            TextSpan::Body { end, .. } => end,
            TextSpan::Styled { end, .. } => end,
        }
    }
}

/// The spans of `range` up to where the first `n` highlights reach, and that
/// place.
pub open spec fn spans_of_first<K: Kit>(
    highlights: Seq<(Range<usize>, InlineHighlight<K>)>,
    range: Range<usize>,
    n: int,
) -> (Seq<TextSpan>, usize)
    decreases n,
{
    if n <= 0 {
        (Seq::empty(), range.start)
    } else {
        let (before, cursor) = spans_of_first(highlights, range, n - 1);
        let (marked, highlight) = highlights[n - 1];
        let start = if marked.start < cursor { cursor } else { marked.start };
        let end = if marked.end < range.end { marked.end } else { range.end };
        if highlight.font_family is None || start >= end {
            (before, cursor)
        } else {
            let body = if cursor < start {
                before.push(TextSpan::Body { start: cursor, end: start })
            } else {
                before
            };
            (body.push(TextSpan::Styled { start, end, highlight: (n - 1) as usize }), end)
        }
    }
}

/// The spans of `range`: one for what each highlight with a family adds to
/// the ones before it, and the text between them.
pub open spec fn spans<K: Kit>(
    highlights: Seq<(Range<usize>, InlineHighlight<K>)>,
    range: Range<usize>,
) -> Seq<TextSpan> {
    let (before, cursor) = spans_of_first(highlights, range, highlights.len() as int);
    if cursor < range.end {
        before.push(TextSpan::Body { start: cursor, end: range.end })
    } else {
        before
    }
}

/// Takes `range` of a text apart where its font changes.
pub fn text_spans<K: Kit>(
    highlights: &Vec<(Range<usize>, InlineHighlight<K>)>,
    range: &Range<usize>,
) -> (r: Vec<TextSpan>)
    ensures
        r@ == spans(highlights@, *range),
{
    let mut out: Vec<TextSpan> = Vec::new();
    let mut cursor: usize = range.start;
    for ix in 0..highlights.len()
        invariant
            (out@, cursor) == spans_of_first(highlights@, *range, ix as int),
    {
        let (marked, highlight) = (&highlights[ix].0, &highlights[ix].1);
        let start: usize = if marked.start < cursor { cursor } else { marked.start };
        let end: usize = if marked.end < range.end { marked.end } else { range.end };
        if highlight.font_family.is_some() && start < end {
            if cursor < start {
                out.push(TextSpan::Body { start: cursor, end: start });
            }
            out.push(TextSpan::Styled { start, end, highlight: ix });
            cursor = end;
        }
    }
    if cursor < range.end {
        out.push(TextSpan::Body { start: cursor, end: range.end });
    }
    out
}

/// The size that a highlight gives to the text of a flow.
pub open spec fn span_font_size<K: Kit>(
    typography: InlineFlowTypography<K>,
    highlight: InlineHighlight<K>,
) -> K::Num {
    typography.spec_font_pixels().spec_times(
        match highlight.font_size_scale {
            Some(scale) => scale,
            None => K::Num::spec_ratio(1, 1),
        },
    )
}

/// What a piece of a span takes besides its text: the padding of both its ends
/// for code, nothing otherwise.
pub open spec fn span_padding<K: Kit>(highlight: InlineHighlight<K>) -> K::Num {
    if highlight.font_size_scale is Some {
        code_padding::<K::Num>().spec_times(K::Num::spec_ratio(2, 1))
    } else {
        K::Num::spec_zero()
    }
}

/// Whether the window may answer that `text` under `highlight` is `width` wide.
pub open spec fn is_width<K: Kit, B: Backend<K>>(
    backend: &B,
    typography: &InlineFlowTypography<K>,
    highlight: &InlineHighlight<K>,
    text: Seq<char>,
    width: K::Num,
) -> bool {
    exists|asked: &str|
        asked@ == text && #[trigger] call_ensures(
            B::text_width,
            (
                backend,
                asked,
                &typography.text_style,
                span_font_size(*typography, *highlight),
                highlight,
            ),
            width,
        )
}

/// A text of the given width, under `highlight`, as one element.
pub open spec fn element_of<K: Kit>(
    highlight: InlineHighlight<K>,
    text: Seq<char>,
    width: K::Num,
) -> WrapView<K::Num> {
    WrapView::Element { width: width.spec_plus(span_padding(highlight)), len: byte_len(text) }
}

/// Whether `element` is `text` as one element, at a width that the window may
/// answer.
pub open spec fn is_element<K: Kit, B: Backend<K>>(
    backend: &B,
    typography: &InlineFlowTypography<K>,
    highlight: &InlineHighlight<K>,
    text: Seq<char>,
    element: WrapView<K::Num>,
) -> bool {
    exists|width: K::Num|
        element == element_of(*highlight, text, width) && #[trigger] is_width(
            backend,
            typography,
            highlight,
            text,
            width,
        )
}

/// Whether `out` are the given pieces of a text, each as one element.
pub open spec fn is_elements<K: Kit, B: Backend<K>>(
    backend: &B,
    typography: &InlineFlowTypography<K>,
    highlight: &InlineHighlight<K>,
    pieces: Seq<Seq<char>>,
    out: Seq<WrapView<K::Num>>,
) -> bool {
    &&& out.len() == pieces.len()
    &&& forall|i: int|
        #![trigger out[i]]
        0 <= i < out.len() ==> is_element(backend, typography, highlight, pieces[i], out[i])
}

/// Whether `out` is what a word becomes: one element where it fits on a line
/// by itself, one for each of its grapheme clusters where it does not.
pub open spec fn is_word<K: Kit, B: Backend<K>>(
    backend: &B,
    typography: &InlineFlowTypography<K>,
    highlight: &InlineHighlight<K>,
    wrap_width: K::Num,
    word: Seq<char>,
    out: Seq<WrapView<K::Num>>,
) -> bool {
    exists|width: K::Num| #[trigger]
        is_width(backend, typography, highlight, word, width) && if width.spec_plus(
            span_padding(*highlight),
        ).spec_at_most(wrap_width) {
            out == seq![element_of(*highlight, word, width)]
        } else {
            is_elements(backend, typography, highlight, grapheme_pieces(word), out)
        }
}

/// Whether `groups` are what the words of a span become.
pub open spec fn is_words<K: Kit, B: Backend<K>>(
    backend: &B,
    typography: &InlineFlowTypography<K>,
    highlight: &InlineHighlight<K>,
    wrap_width: K::Num,
    words: Seq<Seq<char>>,
    groups: Seq<Seq<WrapView<K::Num>>>,
) -> bool {
    &&& groups.len() == words.len()
    &&& forall|i: int|
        #![trigger groups[i]]
        0 <= i < groups.len() ==> is_word(
            backend,
            typography,
            highlight,
            wrap_width,
            words[i],
            groups[i],
        )
}

/// Whether `out` is what a styled span becomes: one element where it fits on
/// a line by itself, and what its words become where it does not.
pub open spec fn is_styled_span<K: Kit, B: Backend<K>>(
    backend: &B,
    typography: &InlineFlowTypography<K>,
    highlight: &InlineHighlight<K>,
    wrap_width: K::Num,
    span: Seq<char>,
    out: Seq<WrapView<K::Num>>,
) -> bool {
    exists|width: K::Num| #[trigger]
        is_width(backend, typography, highlight, span, width) && if width.spec_plus(
            span_padding(*highlight),
        ).spec_at_most(wrap_width) {
            out == seq![element_of(*highlight, span, width)]
        } else {
            exists|groups: Seq<Seq<WrapView<K::Num>>>|
                out == groups.flatten() && #[trigger] is_words(
                    backend,
                    typography,
                    highlight,
                    wrap_width,
                    word_pieces(span),
                    groups,
                )
        }
}

/// Whether `out` is what a span of `text` becomes for the line wrapper.
pub open spec fn is_span<K: Kit, B: Backend<K>>(
    backend: &B,
    typography: &InlineFlowTypography<K>,
    highlights: Seq<(Range<usize>, InlineHighlight<K>)>,
    wrap_width: K::Num,
    text: Seq<char>,
    span: TextSpan,
    out: Seq<WrapView<K::Num>>,
) -> bool {
    let chars = text_slice(text, span.start() as int, span.end() as int);
    match span {
        TextSpan::Body { .. } => out == seq![WrapView::<K::Num>::Text(chars)],
        TextSpan::Styled { highlight, .. } => is_styled_span(
            backend,
            typography,
            &highlights[highlight as int].1,
            wrap_width,
            chars,
            out,
        ),
    }
}

/// Whether `groups` are what the given spans of `text` become.
pub open spec fn is_spans<K: Kit, B: Backend<K>>(
    backend: &B,
    typography: &InlineFlowTypography<K>,
    highlights: Seq<(Range<usize>, InlineHighlight<K>)>,
    wrap_width: K::Num,
    text: Seq<char>,
    all: Seq<TextSpan>,
    groups: Seq<Seq<WrapView<K::Num>>>,
) -> bool {
    &&& groups.len() == all.len()
    &&& forall|i: int|
        #![trigger groups[i]]
        0 <= i < groups.len() ==> is_span(
            backend,
            typography,
            highlights,
            wrap_width,
            text,
            all[i],
            groups[i],
        )
}

/// Whether `out` is what `range` of `text` becomes for the line wrapper.
pub open spec fn is_wrap_text<K: Kit, B: Backend<K>>(
    backend: &B,
    typography: &InlineFlowTypography<K>,
    highlights: Seq<(Range<usize>, InlineHighlight<K>)>,
    wrap_width: K::Num,
    text: Seq<char>,
    range: Range<usize>,
    out: Seq<WrapView<K::Num>>,
) -> bool {
    exists|groups: Seq<Seq<WrapView<K::Num>>>|
        out == groups.flatten() && #[trigger] is_spans(
            backend,
            typography,
            highlights,
            wrap_width,
            text,
            spans(highlights, range),
            groups,
        )
}

/// How many bytes wrap fragments stand for.
pub open spec fn wrap_len<N>(fragments: Seq<WrapView<N>>) -> nat
    decreases fragments.len(),
{
    if fragments.len() == 0 {
        0
    } else {
        wrap_len(fragments.drop_last()) + match fragments.last() {
            WrapView::Text(text) => byte_len(text),
            WrapView::Element { len, .. } => len,
        }
    }
}

/// Lists of wrap fragments add up.
pub proof fn lemma_wrap_len_append<N>(a: Seq<WrapView<N>>, b: Seq<WrapView<N>>)
    ensures
        wrap_len(a + b) == wrap_len(a) + wrap_len(b),
    decreases b.len(),
{
    if b.len() == 0 {
        assert(a + b =~= a);
    } else {
        lemma_wrap_len_append(a, b.drop_last());
        assert((a + b).drop_last() =~= a + b.drop_last());
    }
}

/// Whether each wrap fragment stands for its part of a text: it is the part,
/// or as long as it.
pub open spec fn stands_for<N>(fragments: Seq<WrapView<N>>, parts: Seq<Seq<char>>) -> bool {
    &&& fragments.len() == parts.len()
    &&& forall|i: int|
        #![trigger fragments[i]]
        0 <= i < fragments.len() ==> match fragments[i] {
            WrapView::Text(text) => text == parts[i],
            WrapView::Element { len, .. } => len == byte_len(parts[i]),
        }
}

/// Whether wrap fragments stand for parts of `text` that are `text` one after
/// the other.
pub open spec fn cuts<N>(fragments: Seq<WrapView<N>>, text: Seq<char>) -> bool {
    exists|parts: Seq<Seq<char>>| #[trigger]
        stands_for(fragments, parts) && parts.flatten() == text
}

proof fn lemma_stands_for_len<N>(fragments: Seq<WrapView<N>>, parts: Seq<Seq<char>>, n: int)
    requires
        stands_for(fragments, parts),
        0 <= n <= parts.len(),
    ensures
        wrap_len(fragments.take(n)) == byte_len(parts.take(n).flatten()),
    decreases n,
{
    if n == 0 {
        assert(parts.take(0) =~= Seq::empty());
    } else {
        lemma_stands_for_len(fragments, parts, n - 1);
        assert(fragments.take(n).drop_last() =~= fragments.take(n - 1));
        lemma_flatten_step(parts, n - 1);
        lemma_encode_append(parts.take(n - 1).flatten(), parts[n - 1]);
        assert(fragments.take(n).last() == fragments[n - 1]);
    }
}

/// Wrap fragments that cut a text are as long as it.
pub proof fn lemma_cuts_len<N>(fragments: Seq<WrapView<N>>, text: Seq<char>)
    requires
        cuts(fragments, text),
    ensures
        wrap_len(fragments) == byte_len(text),
{
    let parts = choose|parts: Seq<Seq<char>>| #[trigger]
        stands_for(fragments, parts) && parts.flatten() == text;
    lemma_stands_for_len(fragments, parts, parts.len() as int);
    assert(fragments.take(parts.len() as int) =~= fragments);
    assert(parts.take(parts.len() as int) =~= parts);
}

/// Two texts are cut by what cuts each of them.
proof fn lemma_cuts_append<N>(
    a: Seq<WrapView<N>>,
    text: Seq<char>,
    b: Seq<WrapView<N>>,
    more: Seq<char>,
)
    requires
        cuts(a, text),
        cuts(b, more),
    ensures
        cuts(a + b, text + more),
{
    let head = choose|parts: Seq<Seq<char>>| #[trigger]
        stands_for(a, parts) && parts.flatten() == text;
    let tail = choose|parts: Seq<Seq<char>>| #[trigger]
        stands_for(b, parts) && parts.flatten() == more;
    lemma_flatten_concat(head, tail);
    assert(stands_for(a + b, head + tail));
}

proof fn lemma_cuts_one<N>(fragment: WrapView<N>, text: Seq<char>)
    requires
        match fragment {
            WrapView::Text(own) => own == text,
            WrapView::Element { len, .. } => len == byte_len(text),
        },
    ensures
        cuts(seq![fragment], text),
{
    assert(stands_for(seq![fragment], seq![text]));
    seq![text].lemma_flatten_one_element();
}

proof fn lemma_cuts_nothing<N>()
    ensures
        cuts(Seq::<WrapView<N>>::empty(), Seq::empty()),
{
    assert(stands_for(Seq::<WrapView<N>>::empty(), Seq::empty()));
    assert(Seq::<Seq<char>>::empty().flatten() =~= Seq::empty());
}

/// Where a text may be broken between two wrap fragments, no character is
/// split.
pub proof fn law_breaks_split_no_character<N>(
    fragments: Seq<WrapView<N>>,
    text: Seq<char>,
    n: int,
)
    requires
        cuts(fragments, text),
        0 <= n <= fragments.len(),
    ensures
        on_char(text, wrap_len(fragments.take(n)) as int),
{
    let parts = choose|parts: Seq<Seq<char>>| #[trigger]
        stands_for(fragments, parts) && parts.flatten() == text;
    lemma_stands_for_len(fragments, parts, n);
    assert(parts.take(n) + parts.skip(n) =~= parts);
    lemma_flatten_concat(parts.take(n), parts.skip(n));
    lemma_on_char_append(parts.take(n).flatten(), parts.skip(n).flatten());
}

/// Whether no end of a span splits a character of `text`.
pub open spec fn spans_on_chars(text: Seq<char>, all: Seq<TextSpan>) -> bool {
    forall|i: int|
        #![trigger all[i]]
        0 <= i < all.len() ==> on_char(text, all[i].start() as int) && on_char(
            text,
            all[i].end() as int,
        )
}

/// Whether no end of a styled span splits a character of `text`.
pub open spec fn styled_on_chars(text: Seq<char>, all: Seq<TextSpan>) -> bool {
    forall|i: int|
        #![trigger all[i]]
        0 <= i < all.len() && all[i] is Styled ==> on_char(text, all[i].start() as int) && on_char(
            text,
            all[i].end() as int,
        )
}

proof fn lemma_first_spans_on_chars<K: Kit>(
    text: Seq<char>,
    highlights: Seq<(Range<usize>, InlineHighlight<K>)>,
    range: Range<usize>,
    n: int,
)
    requires
        0 <= n <= highlights.len(),
        on_char(text, range.start as int),
        styled_on_chars(text, spans_of_first(highlights, range, n).0),
    ensures
        spans_on_chars(text, spans_of_first(highlights, range, n).0),
        on_char(text, spans_of_first(highlights, range, n).1 as int),
    decreases n,
{
    if n > 0 {
        let (before, cursor) = spans_of_first(highlights, range, n - 1);
        let (all, _) = spans_of_first(highlights, range, n);
        assert forall|i: int| #![trigger before[i]] 0 <= i < before.len() implies all[i]
            == before[i] by {}
        lemma_first_spans_on_chars(text, highlights, range, n - 1);
        if all.len() > before.len() {
            assert(all.last() is Styled);
            assert(all[all.len() - 1] == all.last());
        }
    }
}

/// Spans in the font of the flow end where their range or another span does,
/// so they split no character if the others do not.
pub proof fn lemma_spans_on_chars<K: Kit>(
    text: Seq<char>,
    highlights: Seq<(Range<usize>, InlineHighlight<K>)>,
    range: Range<usize>,
)
    requires
        on_char(text, range.start as int),
        on_char(text, range.end as int),
        styled_on_chars(text, spans(highlights, range)),
    ensures
        spans_on_chars(text, spans(highlights, range)),
{
    let n = highlights.len() as int;
    let (before, cursor) = spans_of_first(highlights, range, n);
    assert forall|i: int| #![trigger before[i]] 0 <= i < before.len() implies spans(
        highlights,
        range,
    )[i] == before[i] by {}
    lemma_first_spans_on_chars(text, highlights, range, n);
}

/// The width of `text` under `highlight`, and its padding.
fn padded_width<K: Kit, B: Backend<K>>(
    backend: &B,
    typography: &InlineFlowTypography<K>,
    highlight: &InlineHighlight<K>,
    text: &str,
) -> (r: K::Num)
    ensures
        exists|width: K::Num| #[trigger]
            is_width(backend, typography, highlight, text@, width) && r == width.spec_plus(
                span_padding(*highlight),
            ),
{
    let scale: K::Num = match highlight.font_size_scale {
        Some(scale) => scale,
        None => K::Num::ratio(1, 1),
    };
    let padding: K::Num = if highlight.font_size_scale.is_some() {
        K::Num::ratio(2, 1).times(K::Num::ratio(2, 1))
    } else {
        K::Num::zero()
    };
    let font_size: K::Num = typography.font_pixels().times(scale);
    let width: K::Num = backend.text_width(text, &typography.text_style, font_size, highlight);
    assert(is_width(backend, typography, highlight, text@, width));
    width.plus(padding)
}

/// Appends the pieces of a word that is too wide for a line, each as one
/// element.
pub fn push_graphemes<'a, K: Kit, B: Backend<K>>(
    fragments: &mut Vec<WrapFragment<'a, K::Num>>,
    pieces: &Vec<&str>,
    highlight: &InlineHighlight<K>,
    typography: &InlineFlowTypography<K>,
    backend: &B,
)
    ensures
        exists|added: Seq<WrapView<K::Num>>|
            wrap_views(final(fragments)@) == wrap_views(old(fragments)@) + added
                && #[trigger] is_elements(
                backend,
                typography,
                highlight,
                piece_views(pieces@),
                added,
            ) && stands_for(added, piece_views(pieces@)),
{
    let ghost before = wrap_views(fragments@);
    let ghost chars = piece_views(pieces@);
    let ghost mut added: Seq<WrapView<K::Num>> = Seq::empty();
    assert(wrap_views(fragments@) =~= before + added);
    for ix in 0..pieces.len()
        invariant
            chars == piece_views(pieces@),
            wrap_views(fragments@) == before + added,
            is_elements(backend, typography, highlight, chars.take(ix as int), added),
            stands_for(added, chars.take(ix as int)),
    {
        let piece = pieces[ix];
        let ghost so_far = wrap_views(fragments@);
        let width: K::Num = padded_width(backend, typography, highlight, piece);
        fragments.push(WrapFragment::Element { width, len: text_len(piece) });
        proof {
            let one = WrapView::Element { width, len: byte_len(piece@) };
            assert(is_element(backend, typography, highlight, chars[ix as int], one));
            assert(wrap_views(fragments@) =~= so_far.push(one));
            assert(so_far.push(one) =~= before + added.push(one));
            added = added.push(one);
        }
    }
    assert(chars.take(chars.len() as int) =~= chars);
}

/// Appends what a word becomes.
pub fn push_word<'a, K: Kit, B: Backend<K>>(
    fragments: &mut Vec<WrapFragment<'a, K::Num>>,
    word: &str,
    highlight: &InlineHighlight<K>,
    typography: &InlineFlowTypography<K>,
    wrap_width: K::Num,
    backend: &B,
)
    ensures
        exists|added: Seq<WrapView<K::Num>>|
            wrap_views(final(fragments)@) == wrap_views(old(fragments)@) + added
                && #[trigger] is_word(backend, typography, highlight, wrap_width, word@, added)
                && cuts(added, word@),
{
    let ghost before = wrap_views(fragments@);
    let width: K::Num = padded_width(backend, typography, highlight, word);
    if width.at_most(wrap_width) {
        fragments.push(WrapFragment::Element { width, len: text_len(word) });
        proof {
            let one = WrapView::Element { width, len: byte_len(word@) };
            assert(wrap_views(fragments@) =~= before + seq![one]);
            lemma_cuts_one(one, word@);
            assert(is_word(backend, typography, highlight, wrap_width, word@, seq![one]));
        }
        return;
    }
    let pieces = split_graphemes(word);
    push_graphemes(fragments, &pieces, highlight, typography, backend);
    proof {
        let added = choose|added: Seq<WrapView<K::Num>>|
            wrap_views(fragments@) == before + added && #[trigger] is_elements(
                backend,
                typography,
                highlight,
                piece_views(pieces@),
                added,
            ) && stands_for(added, piece_views(pieces@));
        assert(is_word(backend, typography, highlight, wrap_width, word@, added));
    }
}

/// Appends what the given words of a span become.
pub fn push_words<'a, K: Kit, B: Backend<K>>(
    fragments: &mut Vec<WrapFragment<'a, K::Num>>,
    words: &Vec<&str>,
    highlight: &InlineHighlight<K>,
    typography: &InlineFlowTypography<K>,
    wrap_width: K::Num,
    backend: &B,
)
    ensures
        exists|groups: Seq<Seq<WrapView<K::Num>>>|
            wrap_views(final(fragments)@) == wrap_views(old(fragments)@) + groups.flatten()
                && #[trigger] is_words(
                backend,
                typography,
                highlight,
                wrap_width,
                piece_views(words@),
                groups,
            ) && cuts(groups.flatten(), piece_views(words@).flatten()),
{
    let ghost before = wrap_views(fragments@);
    let ghost chars = piece_views(words@);
    let ghost mut groups: Seq<Seq<WrapView<K::Num>>> = Seq::empty();
    proof {
        assert(chars.take(0).flatten() =~= Seq::empty());
        assert(groups.flatten() =~= Seq::empty());
        assert(wrap_views(fragments@) =~= before + groups.flatten());
        lemma_cuts_nothing::<K::Num>();
    }
    for ix in 0..words.len()
        invariant
            chars == piece_views(words@),
            wrap_views(fragments@) == before + groups.flatten(),
            is_words(backend, typography, highlight, wrap_width, chars.take(ix as int), groups),
            cuts(groups.flatten(), chars.take(ix as int).flatten()),
    {
        let word = words[ix];
        push_word(fragments, word, highlight, typography, wrap_width, backend);
        proof {
            let added = choose|added: Seq<WrapView<K::Num>>|
                wrap_views(fragments@) == before + groups.flatten() + added
                    && #[trigger] is_word(
                    backend,
                    typography,
                    highlight,
                    wrap_width,
                    word@,
                    added,
                ) && cuts(added, word@);
            lemma_flatten_step(chars, ix as int);
            groups.lemma_flatten_push(added);
            lemma_cuts_append(
                groups.flatten(),
                chars.take(ix as int).flatten(),
                added,
                chars[ix as int],
            );
            assert(before + groups.flatten() + added =~= before + (groups.flatten() + added));
            groups = groups.push(added);
        }
    }
    assert(chars.take(chars.len() as int) =~= chars);
}

/// One more piece of a text lengthens the text by that piece.
proof fn lemma_flatten_step<T>(pieces: Seq<Seq<T>>, ix: int)
    requires
        0 <= ix < pieces.len(),
    ensures
        pieces.take(ix + 1).flatten() == pieces.take(ix).flatten() + pieces[ix],
{
    assert(pieces.take(ix + 1) =~= pieces.take(ix).push(pieces[ix]));
    pieces.take(ix).lemma_flatten_push(pieces[ix]);
}

/// Appends what a styled span becomes.
fn push_styled_span<'a, K: Kit, B: Backend<K>>(
    fragments: &mut Vec<WrapFragment<'a, K::Num>>,
    span: &str,
    highlight: &InlineHighlight<K>,
    typography: &InlineFlowTypography<K>,
    wrap_width: K::Num,
    backend: &B,
) -> (added: Ghost<Seq<WrapView<K::Num>>>)
    ensures
        wrap_views(final(fragments)@) == wrap_views(old(fragments)@) + added@,
        is_styled_span(backend, typography, highlight, wrap_width, span@, added@),
        cuts(added@, span@),
{
    let ghost before = wrap_views(fragments@);
    let width: K::Num = padded_width(backend, typography, highlight, span);
    if width.at_most(wrap_width) {
        fragments.push(WrapFragment::Element { width, len: text_len(span) });
        let ghost one = WrapView::Element { width, len: byte_len(span@) };
        let ghost added = seq![one];
        proof {
            assert(wrap_views(fragments@) =~= before + added);
            lemma_cuts_one(one, span@);
        }
        return Ghost(added);
    }
    let words = split_words(span);
    push_words(fragments, &words, highlight, typography, wrap_width, backend);
    let ghost groups = choose|groups: Seq<Seq<WrapView<K::Num>>>|
        wrap_views(fragments@) == before + groups.flatten() && #[trigger] is_words(
            backend,
            typography,
            highlight,
            wrap_width,
            piece_views(words@),
            groups,
        ) && cuts(groups.flatten(), piece_views(words@).flatten());
    Ghost(groups.flatten())
}

/// Appends the wrap fragments for `range` of `text`. A span whose highlight
/// sets another family is measured and enters as an element. A span that is
/// too wide for a line keeps its word boundaries; a word that is too wide may
/// break between grapheme clusters, which splits no character.
pub fn push_text_wrap_fragments<'a, K: Kit, B: Backend<K>>(
    fragments: &mut Vec<WrapFragment<'a, K::Num>>,
    text: &'a str,
    highlights: &Vec<(Range<usize>, InlineHighlight<K>)>,
    range: &Range<usize>,
    typography: &InlineFlowTypography<K>,
    wrap_width: K::Num,
    backend: &B,
)
    requires
        spans_on_chars(text@, spans(highlights@, *range)),
    ensures
        exists|added: Seq<WrapView<K::Num>>|
            wrap_views(final(fragments)@) == wrap_views(old(fragments)@) + added
                && #[trigger] is_wrap_text(
                backend,
                typography,
                highlights@,
                wrap_width,
                text@,
                *range,
                added,
            ) && (range.start < range.end ==> cuts(
                added,
                text_slice(text@, range.start as int, range.end as int),
            )),
{
    let ghost before = wrap_views(fragments@);
    let parts = text_spans(highlights, range);
    let ghost mut groups: Seq<Seq<WrapView<K::Num>>> = Seq::empty();
    let ghost mut shown: Seq<char> = Seq::empty();
    proof {
        assert(groups.flatten() =~= Seq::empty());
        assert(wrap_views(fragments@) =~= before + groups.flatten());
        assert(highlights.len() == highlights@.len());
        lemma_cuts_nothing::<K::Num>();
        law_spans_cover_range(highlights@, *range);
    }
    for ix in 0..parts.len()
        invariant
            parts@ == spans(highlights@, *range),
            spans_on_chars(text@, parts@),
            forall|i: int|
                #![trigger parts@[i]]
                0 <= i < parts@.len() ==> parts@[i].start() < parts@[i].end(),
            forall|i: int|
                #![trigger parts@[i]]
                0 <= i < parts@.len() ==> (parts@[i] matches TextSpan::Styled { highlight, .. }
                    ==> highlight < highlights@.len()),
            range.start < range.end ==> span_ranges_tile(
                parts@,
                range.start as int,
                range.end as int,
            ),
            wrap_views(fragments@) == before + groups.flatten(),
            is_spans(
                backend,
                typography,
                highlights@,
                wrap_width,
                text@,
                parts@.take(ix as int),
                groups,
            ),
            cuts(groups.flatten(), shown),
            ix == 0 ==> shown == Seq::<char>::empty(),
            range.start < range.end && ix > 0 ==> on_char(text@, range.start as int)
                && range.start <= parts@[ix - 1].end() && shown == text_slice(
                text@,
                range.start as int,
                parts@[ix - 1].end() as int,
            ),
    {
        let ghost part = parts@[ix as int];
        let ghost slice = text_slice(text@, part.start() as int, part.end() as int);
        let added: Ghost<Seq<WrapView<K::Num>>> = match &parts[ix] {
            TextSpan::Body { start, end } => {
                let slice = slice_text(text, *start, *end);
                fragments.push(WrapFragment::Text(slice));
                let ghost one = WrapView::<K::Num>::Text(slice@);
                let ghost added = seq![one];
                proof {
                    lemma_cuts_one(one, slice@);
                    assert(wrap_views(fragments@) =~= before + groups.flatten() + added);
                }
                Ghost(added)
            },
            TextSpan::Styled { start, end, highlight } => {
                let slice = slice_text(text, *start, *end);
                push_styled_span(
                    fragments,
                    slice,
                    &highlights[*highlight].1,
                    typography,
                    wrap_width,
                    backend,
                )
            },
        };
        proof {
            assert(is_span(
                backend,
                typography,
                highlights@,
                wrap_width,
                text@,
                part,
                added@,
            ));
            groups.lemma_flatten_push(added@);
            lemma_cuts_append(groups.flatten(), shown, added@, slice);
            assert(before + groups.flatten() + added@ =~= before + (groups.flatten() + added@));
            groups = groups.push(added@);
            if range.start < range.end {
                if ix == 0 {
                    assert(shown + slice =~= slice);
                } else {
                    assert(parts@[ix - 1].end() == part.start());
                    lemma_slice_append(
                        text@,
                        range.start as int,
                        part.start() as int,
                        part.end() as int,
                    );
                }
            }
            shown = shown + slice;
        }
    }
    proof {
        assert(parts@.take(parts@.len() as int) =~= parts@);
        assert(is_wrap_text(
            backend,
            typography,
            highlights@,
            wrap_width,
            text@,
            *range,
            groups.flatten(),
        ));
    }
}

proof fn lemma_spans_of_first<K: Kit>(
    highlights: Seq<(Range<usize>, InlineHighlight<K>)>,
    range: Range<usize>,
    n: int,
)
    requires
        0 <= n <= highlights.len(),
        highlights.len() <= usize::MAX,
    ensures
        ({
            let (all, cursor) = spans_of_first(highlights, range, n);
            &&& range.start <= cursor
            &&& cursor == range.start || cursor <= range.end
            &&& span_ranges_tile(all, range.start as int, cursor as int)
            &&& forall|i: int|
                #![trigger all[i]]
                0 <= i < all.len() ==> all[i].start() < all[i].end() <= cursor && (
                all[i] matches TextSpan::Styled { highlight, .. } ==> highlight < n)
        }),
    decreases n,
{
    if n > 0 {
        lemma_spans_of_first(highlights, range, n - 1);
    }
}

/// Whether spans cover `start..end` one after the other.
pub open spec fn span_ranges_tile(all: Seq<TextSpan>, start: int, end: int) -> bool {
    &&& all.len() == 0 ==> start == end
    &&& all.len() > 0 ==> all[0].start() == start && all.last().end() == end
    &&& forall|i: int|
        #![trigger all[i]]
        0 <= i < all.len() - 1 ==> all[i].end() == all[i + 1].start()
}

/// The spans of a range cover it one after the other, and none is empty.
pub proof fn law_spans_cover_range<K: Kit>(
    highlights: Seq<(Range<usize>, InlineHighlight<K>)>,
    range: Range<usize>,
)
    requires
        highlights.len() <= usize::MAX,
    ensures
        range.start <= range.end ==> span_ranges_tile(
            spans(highlights, range),
            range.start as int,
            range.end as int,
        ),
        forall|i: int|
            #![trigger spans(highlights, range)[i]]
            0 <= i < spans(highlights, range).len() ==> {
                let span = spans(highlights, range)[i];
                &&& span.start() < span.end() <= range.end
                &&& span matches TextSpan::Styled { highlight, .. } ==> highlight < highlights.len()
            },
{
    lemma_spans_of_first(highlights, range, highlights.len() as int);
}

/// Whether highlights come in the order of their starts.
pub open spec fn starts_in_order<K: Kit>(
    highlights: Seq<(Range<usize>, InlineHighlight<K>)>,
) -> bool {
    forall|i: int, j: int|
        #![trigger highlights[i], highlights[j]]
        0 <= i <= j < highlights.len() ==> highlights[i].0.start <= highlights[j].0.start
}

/// Whether the highlight of index `i` sets a family and covers the byte `at`.
pub open spec fn styles<K: Kit>(
    highlights: Seq<(Range<usize>, InlineHighlight<K>)>,
    i: int,
    at: int,
) -> bool {
    &&& 0 <= i < highlights.len()
    &&& highlights[i].1.font_family is Some
    &&& highlights[i].0.start <= at < highlights[i].0.end
}

/// Whether the span of index `i` holds the byte `at`.
pub open spec fn holds(all: Seq<TextSpan>, i: int, at: int) -> bool {
    0 <= i < all.len() && all[i].start() <= at < all[i].end()
}

/// Whether a span with the byte `at` says of it what the highlights do: it is
/// styled by the first of them that sets a family there, and in the font of
/// the flow where none does.
pub open spec fn span_is_right<K: Kit>(
    highlights: Seq<(Range<usize>, InlineHighlight<K>)>,
    span: TextSpan,
    at: int,
) -> bool {
    match span {
        TextSpan::Body { .. } => forall|j: int| !#[trigger] styles(highlights, j, at),
        TextSpan::Styled { highlight, .. } => styles(highlights, highlight as int, at)
            && forall|j: int| j < highlight ==> !#[trigger] styles(highlights, j, at),
    }
}

proof fn lemma_first_spans_are_right<K: Kit>(
    highlights: Seq<(Range<usize>, InlineHighlight<K>)>,
    range: Range<usize>,
    n: int,
    at: int,
)
    requires
        0 <= n <= highlights.len(),
        highlights.len() <= usize::MAX,
        starts_in_order(highlights),
        range.start <= at < range.end,
    ensures
        ({
            let (all, cursor) = spans_of_first(highlights, range, n);
            &&& forall|i: int| #[trigger]
                holds(all, i, at) ==> span_is_right(highlights, all[i], at)
            &&& at >= cursor ==> forall|j: int| j < n ==> !#[trigger] styles(highlights, j, at)
        }),
    decreases n,
{
    if n > 0 {
        lemma_first_spans_are_right(highlights, range, n - 1, at);
        let (before, cursor) = spans_of_first(highlights, range, n - 1);
        let (all, after) = spans_of_first(highlights, range, n);
        let (marked, highlight) = highlights[n - 1];
        let start = if marked.start < cursor { cursor } else { marked.start };
        assert forall|i: int| #[trigger] holds(all, i, at) implies span_is_right(
            highlights,
            all[i],
            at,
        ) by {
            if i < before.len() {
                assert(all[i] == before[i]);
                assert(holds(before, i, at));
            } else if all[i] is Body {
                assert forall|j: int| !#[trigger] styles(highlights, j, at) by {
                    if n - 1 <= j < highlights.len() {
                        assert(highlights[n - 1].0.start <= highlights[j].0.start);
                    }
                }
            }
        }
        if at >= after {
            assert(at >= cursor);
            assert(!styles(highlights, n - 1, at));
        }
    }
}

/// For highlights in the order of their starts, each byte of a range lies in
/// one span, which is styled by the first highlight that sets a family on the
/// byte; so a byte is styled if and only if some highlight with a family
/// covers it.
pub proof fn law_bytes_are_styled_by_their_highlights<K: Kit>(
    highlights: Seq<(Range<usize>, InlineHighlight<K>)>,
    range: Range<usize>,
    at: int,
)
    requires
        highlights.len() <= usize::MAX,
        starts_in_order(highlights),
        range.start <= at < range.end,
    ensures
        exists|i: int| #[trigger] holds(spans(highlights, range), i, at),
        forall|i: int| #[trigger]
            holds(spans(highlights, range), i, at) ==> span_is_right(
                highlights,
                spans(highlights, range)[i],
                at,
            ),
        (exists|i: int| #[trigger]
            holds(spans(highlights, range), i, at) && spans(highlights, range)[i] is Styled) <==> (
        exists|j: int| #[trigger] styles(highlights, j, at)),
{
    let all = spans(highlights, range);
    let n = highlights.len() as int;
    let (before, cursor) = spans_of_first(highlights, range, n);
    lemma_first_spans_are_right(highlights, range, n, at);
    law_spans_cover_range(highlights, range);
    assert forall|i: int| #[trigger] holds(all, i, at) implies span_is_right(
        highlights,
        all[i],
        at,
    ) by {
        if i < before.len() {
            assert(all[i] == before[i]);
            assert(holds(before, i, at));
        }
    }
    lemma_tiles_hold(all, range.start as int, range.end as int, at);
    let i = choose|i: int| #[trigger] holds(all, i, at);
    assert(span_is_right(highlights, all[i], at));
    if exists|j: int| #[trigger] styles(highlights, j, at) {
        assert(all[i] is Styled);
    }
}

proof fn lemma_tiles_hold(all: Seq<TextSpan>, start: int, end: int, at: int)
    requires
        span_ranges_tile(all, start, end),
        start <= at < end,
    ensures
        exists|i: int| #[trigger] holds(all, i, at),
    decreases all.len(),
{
    let before = all.drop_last();
    let last = all.len() - 1;
    assert(all.last() == all[last]);
    if at >= all[last].start() {
        assert(holds(all, last, at));
    } else {
        if before.len() > 0 {
            assert(all[before.len() - 1].end() == all[before.len() as int].start());
            assert(before.last() == all[before.len() - 1]);
        }
        lemma_tiles_hold(before, start, all[last].start() as int, at);
        let i = choose|i: int| #[trigger] holds(before, i, at);
        assert(holds(all, i, at));
    }
}

} // verus!
