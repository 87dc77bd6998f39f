//! What a flow asks of the window it is laid out for.

use std::ops::Range;
use std::sync::Arc;

use vstd::prelude::*;

use crate::geometry::{AbsoluteLength, DefiniteLength, Size};
use crate::kit::Kit;
use crate::marks::{Highlights, InlineHighlight};
use crate::number::Same;

verus! {

/// How a text treats the white space it could wrap at.
#[derive(Clone, Copy, Debug, PartialEq, Eq, Structural)]
pub enum WhiteSpace {
    Normal,
    Nowrap,
}

/// What the text of a flow is set in.
pub struct InlineFlowTypography<K: Kit> {
    pub text_style: Arc<K::TextStyle>,
    pub font_size: AbsoluteLength<K::Num>,
    pub white_space: WhiteSpace,
    pub rem_size: K::Num,
    pub line_height: K::Num,
}

impl<K: Kit> InlineFlowTypography<K> {
    /// The size of the text in pixels.
    pub open spec fn spec_font_pixels(self) -> K::Num {
        self.font_size.spec_to_pixels(self.rem_size)
    }

    /// The size of the text in pixels.
    pub fn font_pixels(&self) -> (r: K::Num)
        ensures
            r == self.spec_font_pixels(),
    {
        self.font_size.to_pixels(self.rem_size)
    }

    /// The same typography once more.
    pub fn copied(&self) -> (r: Self)
        ensures
            r == *self,
    {
        InlineFlowTypography {
            text_style: self.text_style.clone(),
            font_size: self.font_size,
            white_space: self.white_space,
            rem_size: self.rem_size,
            line_height: self.line_height,
        }
    }
}

impl<K: Kit> Same for InlineFlowTypography<K> {
    open spec fn same(self, other: Self) -> bool {
        &&& self.text_style.same(other.text_style)
        &&& self.font_size.same(other.font_size)
        &&& self.white_space == other.white_space
        &&& self.rem_size.same(other.rem_size)
        &&& self.line_height.same(other.line_height)
    }

    fn is_same(&self, other: &Self) -> (b: bool) {
        self.text_style.is_same(&other.text_style) && self.font_size.is_same(&other.font_size)
            && self.white_space == other.white_space && self.rem_size.is_same(&other.rem_size)
            && self.line_height.is_same(&other.line_height)
    }
}

/// A stretch of a line as the line wrapper sees it: text in the font of the
/// flow, which the wrapper may break, or a measured piece of `len` bytes,
/// which it may not.
pub enum WrapFragment<'a, N> {
    Text(&'a str),
    Element { width: N, len: usize },
}

/// A wrap fragment in mathematical terms.
pub enum WrapView<N> {
    Text(Seq<char>),
    Element { width: N, len: nat },
}

impl<'a, N> View for WrapFragment<'a, N> {
    type V = WrapView<N>;

    open spec fn view(&self) -> WrapView<N> {
        match *self {
            WrapFragment::Text(text) => WrapView::Text(text@),
            WrapFragment::Element { width, len } => WrapView::Element { width, len: len as nat },
        }
    }
}

/// The views of a list of wrap fragments.
pub open spec fn wrap_views<'a, N>(fragments: Seq<WrapFragment<'a, N>>) -> Seq<WrapView<N>> {
    fragments.map_values(|fragment: WrapFragment<'a, N>| fragment@)
}

/// A shaped stretch of text. Its descent is a distance, and so not negative
/// where the font's own sign convention would make it so.
#[derive(Clone, Copy, Debug)]
pub struct ShapedLine<N> {
    pub width: N,
    pub ascent: N,
    pub descent: N,
}

/// How large an object is, and how far below its top its baseline runs.
#[derive(Clone, Copy, Debug)]
pub struct ObjectMetrics<N> {
    pub size: Size<N>,
    pub baseline: N,
}

/// An object that was drawn and measured.
pub struct MeasuredInlineObject<K: Kit> {
    pub metrics: ObjectMetrics<K::Num>,
    pub element: Arc<K::Object>,
}

impl<K: Kit> MeasuredInlineObject<K> {
    /// The same object once more.
    pub fn copied(&self) -> (r: Self)
        ensures
            r == *self,
    {
        MeasuredInlineObject { metrics: self.metrics, element: self.element.clone() }
    }
}

/// The window: its fonts, its device pixels and what draws into it.
///
/// Nothing is promised of any answer. What is proved of a layout holds
/// whatever the window answers, and says which questions were asked.
pub trait Backend<K: Kit> {
    /// `length` moved to where the window can draw it sharply.
    fn pixel_snap(&self, length: K::Num) -> K::Num;

    /// The width of `text`, all of it under `highlight`, at `font_size`.
    fn text_width(
        &self,
        text: &str,
        style: &Arc<K::TextStyle>,
        font_size: K::Num,
        highlight: &InlineHighlight<K>,
    ) -> K::Num;

    /// How far into a line of `fragments` it is to be broken so that it fits
    /// `wrap_width`.
    fn wrap_line<'a>(
        &self,
        fragments: &Vec<WrapFragment<'a, K::Num>>,
        style: &Arc<K::TextStyle>,
        font_size: K::Num,
        wrap_width: K::Num,
    ) -> Vec<usize>;

    /// The stretches of a text of `len` bytes that are of one size, each with
    /// the factor that its highlights put on the size of the text.
    fn text_size_ranges(&self, len: usize, highlights: &Highlights<K>) -> Vec<
        (Range<usize>, K::Num),
    >;

    /// The bytes `range` of `text` as they are drawn at `font_size`, under
    /// highlights that are measured from the start of `range`.
    fn shape_line(
        &self,
        text: &str,
        range: Range<usize>,
        style: &Arc<K::TextStyle>,
        font_size: K::Num,
        highlights: &Highlights<K>,
    ) -> ShapedLine<K::Num>;

    /// The capital heights at `font_size` of the fonts of a text of `len`
    /// bytes under `highlights`.
    fn cap_heights(
        &self,
        len: usize,
        style: &Arc<K::TextStyle>,
        font_size: K::Num,
        highlights: &Highlights<K>,
    ) -> Vec<K::Num>;

    /// An object drawn by `renderer` in place of `text`.
    fn draw_object(
        &self,
        text: &str,
        id: usize,
        renderer: &Arc<K::Renderer>,
        style: &K::Style,
        text_style: &Arc<K::TextStyle>,
    ) -> MeasuredInlineObject<K>;

    /// `object` with the text in it fitted to `wrap_width`.
    fn fit_text(
        &self,
        object: &MeasuredInlineObject<K>,
        wrap_width: Option<K::Num>,
    ) -> MeasuredInlineObject<K>;

    /// The size that the image of item `ix` takes by itself, with the sides
    /// that are given.
    fn image_size(
        &self,
        ix: usize,
        source: &Arc<K::Source>,
        width: Option<DefiniteLength<K::Num>>,
        height: Option<DefiniteLength<K::Num>>,
    ) -> Size<K::Num>;
}

} // verus!
