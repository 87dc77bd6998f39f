//! From a layout to what is painted.

use std::ops::Range;
use std::sync::Arc;

use vstd::prelude::*;

use crate::backend::MeasuredInlineObject;
use crate::fragment::{has_code, is_code};
use crate::frame::InlineFlowFrameState;
use crate::geometry::{Bounds, Point, Size};
use crate::item::InlineFlowItem;
use crate::kit::Kit;
use crate::layout::{InlineFlowLayout, PositionedFragment, PositionedView};
use crate::marks::{copied_highlights, copied_links, Highlights, InlineHighlight, Links};
use crate::number::Number;
use crate::spans::code_padding;

verus! {

/// What is painted of a fragment, in the coordinates of the window.
pub enum PrepaintElement<K: Kit> {
    Object {
        item_ix: usize,
        id: usize,
        object: MeasuredInlineObject<K>,
        origin: Point<K::Num>,
        available: Size<K::Num>,
        selection_bounds: Bounds<K::Num>,
        /// The whole line of the object.
        line_bounds: Bounds<K::Num>,
    },
    Text {
        item_ix: usize,
        /// Which of the states that the flow keeps is the fragment's.
        state_ix: usize,
        state: Arc<K::TextState>,
        source_range: Range<usize>,
        font_size: K::Num,
        line_height: K::Num,
        text: String,
        links: Links<K>,
        highlights: Highlights<K>,
        /// Where the text starts, after the padding of code.
        origin: Point<K::Num>,
        available: Size<K::Num>,
        /// The whole line of the text.
        line_bounds: Bounds<K::Num>,
        background: Option<(Bounds<K::Num>, K::Color)>,
    },
    Image {
        item_ix: usize,
        /// How many elements are painted before this one.
        element_ix: usize,
        origin: Point<K::Num>,
        size: Size<K::Num>,
    },
}

/// What is painted of a fragment, in mathematical terms.
pub enum ElementView<K: Kit> {
    Object {
        item_ix: usize,
        id: usize,
        object: MeasuredInlineObject<K>,
        origin: Point<K::Num>,
        available: Size<K::Num>,
        selection_bounds: Bounds<K::Num>,
        line_bounds: Bounds<K::Num>,
    },
    Text {
        item_ix: usize,
        state_ix: int,
        source_range: Range<usize>,
        font_size: K::Num,
        line_height: K::Num,
        text: Seq<char>,
        links: Seq<(Range<usize>, Arc<K::Link>)>,
        highlights: Seq<(Range<usize>, InlineHighlight<K>)>,
        origin: Point<K::Num>,
        available: Size<K::Num>,
        line_bounds: Bounds<K::Num>,
        background: Option<(Bounds<K::Num>, K::Color)>,
    },
    Image { item_ix: usize, element_ix: int, origin: Point<K::Num>, size: Size<K::Num> },
}

impl<K: Kit> View for PrepaintElement<K> {
    type V = ElementView<K>;

    open spec fn view(&self) -> ElementView<K> {
        match *self {
            PrepaintElement::Object {
                item_ix,
                id,
                object,
                origin,
                available,
                selection_bounds,
                line_bounds,
            } => ElementView::Object {
                item_ix,
                id,
                object,
                origin,
                available,
                selection_bounds,
                line_bounds,
            },
            PrepaintElement::Text {
                item_ix,
                state_ix,
                source_range,
                font_size,
                line_height,
                text,
                links,
                highlights,
                origin,
                available,
                line_bounds,
                background,
                ..
            } => ElementView::Text {
                item_ix,
                state_ix: state_ix as int,
                source_range,
                font_size,
                line_height,
                text: text@,
                links: links@,
                highlights: highlights@,
                origin,
                available,
                line_bounds,
                background,
            },
            PrepaintElement::Image { item_ix, element_ix, origin, size } => ElementView::Image {
                item_ix,
                element_ix: element_ix as int,
                origin,
                size,
            },
        }
    }
}

/// The views of a list of elements.
pub open spec fn element_views<K: Kit>(elements: Seq<PrepaintElement<K>>) -> Seq<ElementView<K>> {
    elements.map_values(|element: PrepaintElement<K>| element@)
}

/// The item that a fragment shows.
pub open spec fn shown_item<K: Kit>(fragment: PositionedView<K>) -> usize {
    match fragment {
        PositionedView::Object { item_ix, .. } => item_ix,
        PositionedView::Text { item_ix, .. } => item_ix,
        PositionedView::Image { item_ix, .. } => item_ix,
    }
}

/// Whether a fragment and the item it shows are of one kind.
pub open spec fn shows<K: Kit>(
    items: Seq<InlineFlowItem<K>>,
    fragment: PositionedView<K>,
) -> bool {
    let item = items[shown_item(fragment) as int];
    match fragment {
        PositionedView::Object { .. } => item is Object,
        PositionedView::Text { .. } => item is Text,
        PositionedView::Image { .. } => item is Image,
    }
}

/// How many of the first `n` fragments are shown as text.
pub open spec fn texts_of_first<K: Kit>(
    items: Seq<InlineFlowItem<K>>,
    fragments: Seq<PositionedView<K>>,
    n: int,
) -> int
    decreases n,
{
    if n <= 0 {
        0
    } else {
        texts_of_first(items, fragments, n - 1) + if fragments[n - 1] is Text && shows(
            items,
            fragments[n - 1],
        ) {
            1int
        } else {
            0int
        }
    }
}

/// The box of the line of a selection, across the whole flow at `bounds`.
pub open spec fn line_bounds_of<N: Number>(bounds: Bounds<N>, selection: Bounds<N>) -> Bounds<N> {
    Bounds {
        origin: Point {
            x: bounds.origin.x,
            y: bounds.origin.y.spec_plus(selection.origin.y),
        },
        size: Size { width: bounds.size.width, height: selection.size.height },
    }
}

/// What is painted of a fragment of a flow at `bounds`, as text number
/// `state_ix` and as element number `element_ix`. Text of code starts after
/// the padding at its left, and has the room between both paddings.
pub open spec fn element_of<K: Kit>(
    items: Seq<InlineFlowItem<K>>,
    bounds: Bounds<K::Num>,
    fragment: PositionedView<K>,
    state_ix: int,
    element_ix: int,
) -> ElementView<K> {
    match fragment {
        PositionedView::Object {
            item_ix,
            origin,
            object,
            selection_bounds,
        } => ElementView::Object {
            item_ix,
            id: items[item_ix as int]->Object_id,
            object,
            origin: bounds.origin.spec_moved(origin),
            available: object.metrics.size,
            selection_bounds: Bounds {
                origin: bounds.origin.spec_moved(selection_bounds.origin),
                size: selection_bounds.size,
            },
            line_bounds: line_bounds_of(bounds, selection_bounds),
        },
        PositionedView::Text {
            item_ix,
            origin,
            size,
            source_range,
            font_size,
            text,
            links,
            highlights,
            selection_bounds,
            code_background,
        } => {
            let padding = if is_code(highlights) {
                code_padding::<K::Num>()
            } else {
                K::Num::spec_zero()
            };
            ElementView::Text {
                item_ix,
                state_ix,
                source_range,
                font_size,
                line_height: size.height,
                text,
                links,
                highlights,
                origin: bounds.origin.spec_moved(origin).spec_moved(
                    Point { x: padding, y: K::Num::spec_zero() },
                ),
                available: Size {
                    width: size.width.spec_minus(
                        padding.spec_times(K::Num::spec_ratio(2, 1)),
                    ),
                    height: size.height,
                },
                line_bounds: line_bounds_of(bounds, selection_bounds),
                background: match code_background {
                    Some((background, color)) => Some(
                        (
                            Bounds {
                                origin: bounds.origin.spec_moved(background.origin),
                                size: background.size,
                            },
                            color,
                        ),
                    ),
                    None => None,
                },
            }
        },
        PositionedView::Image { item_ix, origin, size } => ElementView::Image {
            item_ix,
            element_ix,
            origin: bounds.origin.spec_moved(origin),
            size,
        },
    }
}

/// What is painted of the first `n` fragments. A fragment of another kind
/// than its item is left out.
pub open spec fn elements_of_first<K: Kit>(
    items: Seq<InlineFlowItem<K>>,
    bounds: Bounds<K::Num>,
    fragments: Seq<PositionedView<K>>,
    n: int,
) -> Seq<ElementView<K>>
    decreases n,
{
    if n <= 0 {
        Seq::empty()
    } else {
        let before = elements_of_first(items, bounds, fragments, n - 1);
        if shows(items, fragments[n - 1]) {
            before.push(
                element_of(
                    items,
                    bounds,
                    fragments[n - 1],
                    texts_of_first(items, fragments, n - 1),
                    before.len() as int,
                ),
            )
        } else {
            before
        }
    }
}

fn line_bounds<N: Number>(bounds: Bounds<N>, selection: Bounds<N>) -> (r: Bounds<N>)
    ensures
        r == line_bounds_of(bounds, selection),
{
    Bounds {
        origin: Point { x: bounds.origin.x, y: bounds.origin.y.plus(selection.origin.y) },
        size: Size { width: bounds.size.width, height: selection.size.height },
    }
}

/// Whether each text among `elements` has the state of its number.
pub open spec fn states_given<K: Kit>(
    elements: Seq<PrepaintElement<K>>,
    states: Seq<Arc<K::TextState>>,
) -> bool {
    forall|i: int|
        #![trigger elements[i]]
        0 <= i < elements.len() ==> match elements[i] {
            PrepaintElement::Text { state_ix, state, .. } => state_ix < states.len() && state
                == states[state_ix as int],
            _ => true,
        }
}

/// Whether `after` are the states of `count` texts that found the states
/// `before`: the one of its number for each text, as far as there are, and
/// fresh ones for the rest.
pub open spec fn states_kept<K: Kit>(
    before: Seq<Arc<K::TextState>>,
    count: int,
    after: Seq<Arc<K::TextState>>,
) -> bool {
    &&& after.len() == count
    &&& forall|i: int|
        #![trigger after[i]]
        0 <= i < after.len() ==> if i < before.len() {
            after[i] == before[i]
        } else {
            call_ensures(K::TextState::default, (), *after[i])
        }
}

/// A text has the same state in the next frame: each text keeps the state of
/// its number, and a frame of as many texts keeps them all.
pub proof fn law_texts_keep_their_states<K: Kit>(
    before: Seq<Arc<K::TextState>>,
    count: int,
    after: Seq<Arc<K::TextState>>,
    next_count: int,
    next: Seq<Arc<K::TextState>>,
)
    requires
        states_kept::<K>(before, count, after),
        states_kept::<K>(after, next_count, next),
    ensures
        forall|i: int|
            #![trigger next[i]]
            0 <= i < next_count && i < count ==> next[i] == after[i],
        next_count == count ==> next == after,
{
    if next_count == count {
        assert(next =~= after);
    }
}

/// Finds what is painted of a flow at `bounds`. Each text gets the state that
/// it had in the frame before, or a fresh one, and no more states are kept
/// than there are texts.
pub fn prepaint<K: Kit>(
    items: &[InlineFlowItem<K>],
    layout: &InlineFlowLayout<K>,
    bounds: Bounds<K::Num>,
    frame_state: &mut InlineFlowFrameState<K>,
) -> (r: Vec<PrepaintElement<K>>)
    requires
        forall|i: int|
            #![trigger layout@.fragments[i]]
            0 <= i < layout@.fragments.len() ==> shown_item(layout@.fragments[i]) < items@.len(),
    ensures
        element_views(r@) == elements_of_first(
            items@,
            bounds,
            layout@.fragments,
            layout@.fragments.len() as int,
        ),
        states_given(r@, final(frame_state).fragment_states@),
        states_kept::<K>(
            old(frame_state).fragment_states@,
            texts_of_first(items@, layout@.fragments, layout@.fragments.len() as int),
            final(frame_state).fragment_states@,
        ),
        final(frame_state).key == old(frame_state).key,
        final(frame_state).layouts == old(frame_state).layouts,
{
    let ghost fragments = layout@.fragments;
    let ghost given = frame_state.fragment_states@;
    let mut elements: Vec<PrepaintElement<K>> = Vec::new();
    let mut text_fragment_count: usize = 0;
    assert(element_views(elements@) =~= Seq::empty());
    for ix in 0..layout.fragments.len()
        invariant
            fragments == layout@.fragments,
            given == old(frame_state).fragment_states@,
            forall|i: int|
                #![trigger fragments[i]]
                0 <= i < fragments.len() ==> shown_item(fragments[i]) < items@.len(),
            text_fragment_count == texts_of_first(items@, fragments, ix as int),
            text_fragment_count <= ix,
            element_views(elements@) == elements_of_first(items@, bounds, fragments, ix as int),
            states_given(elements@, frame_state.fragment_states@),
            text_fragment_count <= frame_state.fragment_states@.len(),
            forall|i: int|
                #![trigger elements@[i]]
                0 <= i < elements@.len() ==> match elements@[i] {
                    PrepaintElement::Text { state_ix, .. } => state_ix < text_fragment_count,
                    _ => true,
                },
            given.len() <= frame_state.fragment_states@.len(),
            forall|i: int|
                #![trigger frame_state.fragment_states@[i]]
                0 <= i < frame_state.fragment_states@.len() ==> if i < given.len() {
                    frame_state.fragment_states@[i] == given[i]
                } else {
                    call_ensures(K::TextState::default, (), *frame_state.fragment_states@[i])
                },
            frame_state.key == old(frame_state).key,
            frame_state.layouts == old(frame_state).layouts,
    {
        let ghost before = element_views(elements@);
        let ghost states = frame_state.fragment_states@;
        assert(fragments[ix as int] == layout.fragments@[ix as int]@);
        match &layout.fragments[ix] {
            PositionedFragment::Object { item_ix, origin, object, selection_bounds } => {
                if let InlineFlowItem::Object { id, .. } = &items[*item_ix] {
                    let element = PrepaintElement::Object {
                        item_ix: *item_ix,
                        id: *id,
                        object: object.copied(),
                        origin: bounds.origin.moved(*origin),
                        available: object.metrics.size,
                        selection_bounds: Bounds {
                            origin: bounds.origin.moved(selection_bounds.origin),
                            size: selection_bounds.size,
                        },
                        line_bounds: line_bounds(bounds, *selection_bounds),
                    };
                    let ghost view = element@;
                    elements.push(element);
                    assert(element_views(elements@) =~= before.push(view));
                }
            },
            PositionedFragment::Text {
                item_ix,
                origin,
                size,
                source_range,
                font_size,
                text,
                links,
                highlights,
                selection_bounds,
                code_background,
            } => {
                if let InlineFlowItem::Text { .. } = &items[*item_ix] {
                    let state = frame_state.fragment_state(text_fragment_count);
                    let padding: K::Num = if has_code::<K>(highlights) {
                        K::Num::ratio(2, 1)
                    } else {
                        K::Num::zero()
                    };
                    let background: Option<(Bounds<K::Num>, K::Color)> = match code_background {
                        Some((background, color)) => Some(
                            (
                                Bounds {
                                    origin: bounds.origin.moved(background.origin),
                                    size: background.size,
                                },
                                *color,
                            ),
                        ),
                        None => None,
                    };
                    let element = PrepaintElement::Text {
                        item_ix: *item_ix,
                        state_ix: text_fragment_count,
                        state,
                        source_range: source_range.start..source_range.end,
                        font_size: *font_size,
                        line_height: size.height,
                        text: text.clone(),
                        links: copied_links(links),
                        highlights: copied_highlights(highlights),
                        origin: bounds.origin.moved(*origin).moved(
                            Point { x: padding, y: K::Num::zero() },
                        ),
                        available: Size {
                            width: size.width.minus(padding.times(K::Num::ratio(2, 1))),
                            height: size.height,
                        },
                        line_bounds: line_bounds(bounds, *selection_bounds),
                        background,
                    };
                    let ghost view = element@;
                    text_fragment_count = text_fragment_count + 1;
                    elements.push(element);
                    assert(element_views(elements@) =~= before.push(view));
                }
            },
            PositionedFragment::Image { item_ix, origin, size } => {
                if let InlineFlowItem::Image { .. } = &items[*item_ix] {
                    let element = PrepaintElement::Image {
                        item_ix: *item_ix,
                        element_ix: elements.len(),
                        origin: bounds.origin.moved(*origin),
                        size: *size,
                    };
                    let ghost view = element@;
                    elements.push(element);
                    assert(element_views(elements@) =~= before.push(view));
                }
            },
        }
    }
    frame_state.fragment_states.truncate(text_fragment_count);
    elements
}

/// The texts among the first `n` items.
pub open spec fn text_items<K: Kit>(items: Seq<InlineFlowItem<K>>, n: int) -> Seq<usize>
    decreases n,
{
    if n <= 0 {
        Seq::empty()
    } else if items[n - 1] is Text {
        text_items(items, n - 1).push((n - 1) as usize)
    } else {
        text_items(items, n - 1)
    }
}

/// The items whose selection ends when a flow is painted: its texts, unless
/// their selection is to be preserved.
pub fn selections_to_clear<K: Kit>(
    items: &[InlineFlowItem<K>],
    preserve_selection: bool,
) -> (r: Vec<usize>)
    ensures
        r@ == if preserve_selection {
            Seq::empty()
        } else {
            text_items(items@, items@.len() as int)
        },
{
    let mut out: Vec<usize> = Vec::new();
    if !preserve_selection {
        for ix in 0..items.len()
            invariant
                out@ == text_items(items@, ix as int),
        {
            if let InlineFlowItem::Text { .. } = &items[ix] {
                out.push(ix);
            }
        }
    }
    out
}

} // verus!
