//! The items of a flow.

use std::ops::Range;
use std::sync::Arc;

use vstd::prelude::*;
use vstd::utf8::encode_utf8;

use crate::geometry::DefiniteLength;
use crate::kit::Kit;
use crate::marks::{
    copied_highlights, copied_links, is_same_marks, same_marks, Highlights, InlineHighlight, Links,
};
use crate::number::{is_same_option, same_option};
use crate::text::{byte_len, text_len};

verus! {

/// The length of an image or an object in a flow, where a text counts its
/// bytes.
pub const IMAGE_LEN: usize = 1;

/// An item of a flow, with all that painting it takes.
pub enum InlineFlowItem<K: Kit> {
    Object {
        text: String,
        id: usize,
        renderer: Arc<K::Renderer>,
        accessibility_label: String,
        selected: Arc<K::Selected>,
        style: K::Style,
        link: Option<Arc<K::Link>>,
    },
    Text { state: Arc<K::TextState>, text: String, links: Links<K>, highlights: Highlights<K> },
    Image {
        source: Arc<K::Source>,
        link: Option<Arc<K::Link>>,
        title: String,
        width: Option<DefiniteLength<K::Num>>,
        height: Option<DefiniteLength<K::Num>>,
    },
}

/// What laying out an item takes.
pub enum MeasureItem<K: Kit> {
    Object { text: String, id: usize, renderer: Arc<K::Renderer>, style: K::Style },
    Text { text: String, links: Links<K>, highlights: Highlights<K> },
    Image {
        source: Arc<K::Source>,
        width: Option<DefiniteLength<K::Num>>,
        height: Option<DefiniteLength<K::Num>>,
    },
}

/// A measured item in mathematical terms.
pub enum ItemView<K: Kit> {
    Object { text: Seq<char>, id: usize, renderer: Arc<K::Renderer>, style: K::Style },
    Text {
        text: Seq<char>,
        links: Seq<(Range<usize>, Arc<K::Link>)>,
        highlights: Seq<(Range<usize>, InlineHighlight<K>)>,
    },
    Image {
        source: Arc<K::Source>,
        width: Option<DefiniteLength<K::Num>>,
        height: Option<DefiniteLength<K::Num>>,
    },
}

impl<K: Kit> View for MeasureItem<K> {
    type V = ItemView<K>;

    open spec fn view(&self) -> ItemView<K> {
        match *self {
            MeasureItem::Object { text, id, renderer, style } => ItemView::Object {
                text: text@,
                id,
                renderer,
                style,
            },
            MeasureItem::Text { text, links, highlights } => ItemView::Text {
                text: text@,
                links: links@,
                highlights: highlights@,
            },
            MeasureItem::Image { source, width, height } => ItemView::Image {
                source,
                width,
                height,
            },
        }
    }
}

impl<K: Kit> InlineFlowItem<K> {
    /// What laying out this item takes.
    pub open spec fn measured(self) -> ItemView<K> {
        match self {
            InlineFlowItem::Object { text, id, renderer, style, .. } => ItemView::Object {
                text: text@,
                id,
                renderer,
                style,
            },
            InlineFlowItem::Text { text, links, highlights, .. } => ItemView::Text {
                text: text@,
                links: links@,
                highlights: highlights@,
            },
            InlineFlowItem::Image { source, width, height, .. } => ItemView::Image {
                source,
                width,
                height,
            },
        }
    }
}

impl<K: Kit> ItemView<K> {
    /// How long the item is in its flow.
    pub open spec fn len(self) -> nat {
        match self {
            ItemView::Text { text, .. } => byte_len(text),
            _ => 1,
        }
    }

    /// Whether two items lay out alike. Objects never do: an object is drawn
    /// anew for every frame.
    pub open spec fn same_layout_input(self, other: Self) -> bool {
        match (self, other) {
            (
                ItemView::Text { text, links, highlights },
                ItemView::Text { text: other_text, links: other_links, highlights: other_highlights },
            ) => text == other_text && same_marks(links, other_links) && same_marks(
                highlights,
                other_highlights,
            ),
            (
                ItemView::Image { width, height, .. },
                ItemView::Image { width: other_width, height: other_height, .. },
            ) => same_option(width, other_width) && same_option(height, other_height),
            _ => false,
        }
    }
}

impl<K: Kit> MeasureItem<K> {
    /// What laying out `item` takes.
    pub fn from(item: &InlineFlowItem<K>) -> (r: MeasureItem<K>)
        ensures
            r@ == item.measured(),
    {
        match item {
            InlineFlowItem::Object { text, id, renderer, style, .. } => MeasureItem::Object {
                text: text.clone(),
                id: *id,
                renderer: renderer.clone(),
                style: *style,
            },
            InlineFlowItem::Text { text, links, highlights, .. } => MeasureItem::Text {
                text: text.clone(),
                links: copied_links(links),
                highlights: copied_highlights(highlights),
            },
            InlineFlowItem::Image { source, width, height, .. } => MeasureItem::Image {
                source: source.clone(),
                width: *width,
                height: *height,
            },
        }
    }

    /// How long the item is in its flow: the bytes of a text, one for
    /// anything else.
    pub fn len(&self) -> (r: usize)
        ensures
            r == self@.len(),
    {
        match self {
            MeasureItem::Text { text, .. } => text_len(text.as_str()),
            MeasureItem::Image { .. } | MeasureItem::Object { .. } => IMAGE_LEN,
        }
    }

    /// Whether `other` lays out the same as this item. An object is rendered
    /// anew every frame, so a flow with one is never reused.
    pub fn same_layout_input(&self, other: &Self) -> (r: bool)
        ensures
            r == self@.same_layout_input(other@),
    {
        match (self, other) {
            (
                MeasureItem::Text { text, links, highlights },
                MeasureItem::Text {
                    text: other_text,
                    links: other_links,
                    highlights: other_highlights,
                },
            ) => *text == *other_text && is_same_marks(links, other_links) && is_same_marks(
                highlights,
                other_highlights,
            ),
            (
                MeasureItem::Image { width, height, .. },
                MeasureItem::Image { width: other_width, height: other_height, .. },
            ) => is_same_option(width, other_width) && is_same_option(height, other_height),
            _ => false,
        }
    }
}

/// The views of a list of items.
pub open spec fn views<K: Kit>(items: Seq<MeasureItem<K>>) -> Seq<ItemView<K>> {
    items.map_values(|item: MeasureItem<K>| item@)
}

/// What laying out each item of `items` takes.
pub open spec fn measured_views<K: Kit>(items: Seq<InlineFlowItem<K>>) -> Seq<ItemView<K>> {
    items.map_values(|item: InlineFlowItem<K>| item.measured())
}

/// What laying out the items of a flow takes.
pub fn measure_items<K: Kit>(items: &[InlineFlowItem<K>]) -> (r: Vec<MeasureItem<K>>)
    ensures
        views(r@) == measured_views(items@),
{
    let mut out: Vec<MeasureItem<K>> = Vec::new();
    for i in 0..items.len()
        invariant
            out@.len() == i,
            forall|j: int| #![trigger out@[j]] 0 <= j < i ==> out@[j]@ == items@[j].measured(),
    {
        out.push(MeasureItem::from(&items[i]));
    }
    assert(views(out@) =~= measured_views(items@));
    out
}

/// Measuring an item takes all of it that laying it out depends on: the text
/// with its marks, the object with its text and style, the image with its
/// source and the sides that are given.
pub proof fn law_measuring_keeps_what_is_laid_out<K: Kit>(items: Seq<InlineFlowItem<K>>, ix: int)
    requires
        0 <= ix < items.len(),
    ensures
        measured_views(items).len() == items.len(),
        match items[ix] {
            InlineFlowItem::Object { text, id, renderer, style, .. } => measured_views(
                items,
            )[ix] matches ItemView::Object {
                text: own,
                id: own_id,
                renderer: own_renderer,
                style: own_style,
            } && own == text@ && own_id == id && own_renderer == renderer && own_style == style,
            InlineFlowItem::Text { text, links, highlights, .. } => measured_views(
                items,
            )[ix] matches ItemView::Text {
                text: own,
                links: own_links,
                highlights: own_highlights,
            } && own == text@ && own_links == links@ && own_highlights == highlights@,
            InlineFlowItem::Image { source, width, height, .. } => measured_views(
                items,
            )[ix] matches ItemView::Image {
                source: own,
                width: own_width,
                height: own_height,
            } && own == source && own_width == width && own_height == height,
        },
{
}

/// A text is as long in its flow as it has bytes, and anything else is one unit
/// long.
pub proof fn law_items_are_as_long_as_their_bytes<K: Kit>(item: ItemView<K>)
    ensures
        item matches ItemView::Text { text, .. } ==> item.len() == encode_utf8(text).len(),
        !(item is Text) ==> item.len() == 1,
{
}

} // verus!
