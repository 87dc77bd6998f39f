//! Flows laid out in floating point, for a window with two simple fonts.

use std::cell::Cell;
use std::ops::Range;
use std::rc::Rc;
use std::sync::Arc;

use inline_flow::backend::{
    Backend, InlineFlowTypography, MeasuredInlineObject, ObjectMetrics, ShapedLine, WhiteSpace,
    WrapFragment,
};
use inline_flow::content::{checked_len, hard_lines};
use inline_flow::element::{prepaint, selections_to_clear, PrepaintElement};
use inline_flow::fragment::{plan_line, PlannedFragment};
use inline_flow::frame::{
    measure_flow, request_layout, AvailableSpace, InlineFlowFrameState, LAYOUTS_PER_FLOW,
};
use inline_flow::geometry::{AbsoluteLength, Bounds, DefiniteLength, Point, Size};
use inline_flow::image::{inline_image_size_for_line, measure_images};
use inline_flow::item::{measure_items, InlineFlowItem, MeasureItem};
use inline_flow::kit::Kit;
use inline_flow::layout::{
    intrinsic_width, layout_flow, layout_measured_flow, InlineFlowLayout, PositionedFragment,
};
use inline_flow::marks::{Highlights, InlineHighlight};
use inline_flow::number::{Number, Same};
use inline_flow::spans::{push_graphemes, push_text_wrap_fragments, push_word, push_words};
use inline_flow::wrap::{can_lay_out, line_ranges};

const BODY: &str = "Body";
const MONO: &str = "Mono";

/// The line height of the window, before it is snapped to its pixels.
const LINE_HEIGHT: f32 = 25.888;

#[derive(Clone, Copy, Debug, PartialEq, PartialOrd)]
struct Px(f32);

fn px(value: f32) -> Px {
    Px(value)
}

impl Same for Px {
    fn same(self, other: Self) -> bool {
        self.is_same(&other)
    }

    fn is_same(&self, other: &Self) -> bool {
        self.0 == other.0
    }
}

impl Number for Px {
    fn spec_zero() -> Self {
        Self::zero()
    }

    fn spec_ratio(num: u32, den: u32) -> Self {
        Self::ratio(num, den)
    }

    fn spec_plus(self, other: Self) -> Self {
        self.plus(other)
    }

    fn spec_minus(self, other: Self) -> Self {
        self.minus(other)
    }

    fn spec_times(self, other: Self) -> Self {
        self.times(other)
    }

    fn spec_over(self, other: Self) -> Self {
        self.over(other)
    }

    fn spec_larger(self, other: Self) -> Self {
        self.larger(other)
    }

    fn spec_smaller(self, other: Self) -> Self {
        self.smaller(other)
    }

    fn spec_at_most(self, other: Self) -> bool {
        self.at_most(other)
    }

    fn spec_below(self, other: Self) -> bool {
        self.below(other)
    }

    fn zero() -> Self {
        Px(0.)
    }

    fn ratio(num: u32, den: u32) -> Self {
        Px(num as f32 / den as f32)
    }

    fn plus(self, other: Self) -> Self {
        Px(self.0 + other.0)
    }

    fn minus(self, other: Self) -> Self {
        Px(self.0 - other.0)
    }

    fn times(self, other: Self) -> Self {
        Px(self.0 * other.0)
    }

    fn over(self, other: Self) -> Self {
        Px(self.0 / other.0)
    }

    fn larger(self, other: Self) -> Self {
        Px(self.0.max(other.0))
    }

    fn smaller(self, other: Self) -> Self {
        Px(self.0.min(other.0))
    }

    fn at_most(self, other: Self) -> bool {
        self.0 <= other.0
    }

    fn below(self, other: Self) -> bool {
        self.0 < other.0
    }
}

/// A value that is told apart by its content.
#[derive(Clone, Copy, Debug, PartialEq)]
struct Tag(&'static str);

impl Same for Tag {
    fn same(self, other: Self) -> bool {
        self.is_same(&other)
    }

    fn is_same(&self, other: &Self) -> bool {
        self == other
    }
}

#[derive(Clone, Copy, Debug, PartialEq)]
struct Font {
    family: &'static str,
    size: f32,
}

impl Same for Font {
    fn same(self, other: Self) -> bool {
        self.is_same(&other)
    }

    fn is_same(&self, other: &Self) -> bool {
        self == other
    }
}

#[derive(Default)]
struct TextState {
    selection: Option<Range<usize>>,
}

struct Plain;

impl Kit for Plain {
    type Num = Px;
    type Style = Tag;
    type Color = Tag;
    type Family = Tag;
    type Link = Tag;
    type TextStyle = Font;
    type Renderer = ();
    type Object = String;
    type Selected = ();
    type Source = Tag;
    type TextState = TextState;
}

/// A window in whose body font every character is half as wide as the font is
/// high, and in whose mono font it is as wide.
#[derive(Default)]
struct WideMono {
    shaped: Cell<usize>,
    measured_images: Cell<usize>,
    drawn: Cell<usize>,
    own_image_size: Cell<Option<(f32, f32)>>,
}

impl WideMono {
    fn width_of(text: &str, family: &str, font_size: Px) -> Px {
        let factor = if family == MONO { 1. } else { 0.5 };
        px(text.chars().count() as f32 * font_size.0 * factor)
    }

    fn ascent(font_size: Px) -> Px {
        px(font_size.0 * 0.75)
    }

    fn descent(font_size: Px) -> Px {
        px(font_size.0 * 0.25)
    }

    fn snap(length: Px) -> Px {
        px(length.0.round())
    }

    fn family_at(at: usize, style: &Font, highlights: &Highlights<Plain>) -> &'static str {
        let mut family = style.family;
        for (range, highlight) in highlights {
            if let (true, Some(own)) = (range.contains(&at), &highlight.font_family) {
                family = own.0;
            }
        }
        family
    }

    fn line_box(font_size: Px) -> (Px, Px) {
        let (ascent, descent) = (Self::ascent(font_size), Self::descent(font_size));
        let height = Self::snap(Self::snap(px(LINE_HEIGHT)).larger(ascent.plus(descent)));
        let baseline = px((height.0 - ascent.0 - descent.0) / 2. + ascent.0);
        (height, baseline)
    }
}

fn is_word_char(c: char) -> bool {
    c.is_ascii_alphanumeric() || "-_.'$%@#^~,!;*?=&/+".contains(c)
}

impl Backend<Plain> for WideMono {
    fn pixel_snap(&self, length: Px) -> Px {
        Self::snap(length)
    }

    fn text_width(
        &self,
        text: &str,
        style: &Arc<Font>,
        font_size: Px,
        highlight: &InlineHighlight<Plain>,
    ) -> Px {
        let family = highlight.font_family.as_ref().map_or(style.family, |own| own.0);
        Self::width_of(text, family, font_size)
    }

    fn wrap_line<'a>(
        &self,
        fragments: &Vec<WrapFragment<'a, Px>>,
        style: &Arc<Font>,
        font_size: Px,
        wrap_width: Px,
    ) -> Vec<usize> {
        let mut steps: Vec<(Option<char>, Px, usize)> = vec![];
        for fragment in fragments {
            match fragment {
                WrapFragment::Text(text) => {
                    for c in text.chars() {
                        let width = Self::width_of(&c.to_string(), style.family, font_size);
                        steps.push((Some(c), width, c.len_utf8()));
                    }
                }
                WrapFragment::Element { width, len } => steps.push((None, *width, *len)),
            }
        }
        let mut breaks = vec![];
        let (mut width, mut at, mut last_break) = (0., 0, 0);
        let mut candidate: Option<(usize, f32)> = None;
        let (mut started, mut after_space) = (false, false);
        for (c, step_width, len) in steps {
            let opens = match c {
                Some(' ') => false,
                Some(c) => after_space || !is_word_char(c),
                None => after_space,
            };
            if opens && started {
                candidate = Some((at, width));
            }
            if c != Some(' ') {
                started = true;
            }
            width += step_width.0;
            if width > wrap_width.0 && at > last_break {
                match candidate.take() {
                    Some((candidate_at, before)) => {
                        last_break = candidate_at;
                        width -= before;
                    }
                    None => {
                        last_break = at;
                        width = step_width.0;
                    }
                }
                breaks.push(last_break);
            }
            if let Some(c) = c {
                after_space = c == ' ';
            }
            at += len;
        }
        breaks
    }

    fn text_size_ranges(
        &self,
        len: usize,
        highlights: &Highlights<Plain>,
    ) -> Vec<(Range<usize>, Px)> {
        let mut out = vec![];
        let mut cursor = 0;
        for (range, highlight) in highlights {
            if let Some(scale) = highlight.font_size_scale {
                if cursor < range.start {
                    out.push((cursor..range.start, px(1.)));
                }
                out.push((range.clone(), scale));
                cursor = range.end;
            }
        }
        if cursor < len {
            out.push((cursor..len, px(1.)));
        }
        out
    }

    fn shape_line(
        &self,
        text: &str,
        range: Range<usize>,
        style: &Arc<Font>,
        font_size: Px,
        highlights: &Highlights<Plain>,
    ) -> ShapedLine<Px> {
        self.shaped.set(self.shaped.get() + 1);
        let mut width = px(0.);
        for (at, c) in text[range].char_indices() {
            let family = Self::family_at(at, style, highlights);
            width = width.plus(Self::width_of(&c.to_string(), family, font_size));
        }
        ShapedLine {
            width,
            ascent: Self::ascent(font_size),
            descent: Self::descent(font_size),
        }
    }

    fn cap_heights(
        &self,
        len: usize,
        style: &Arc<Font>,
        font_size: Px,
        highlights: &Highlights<Plain>,
    ) -> Vec<Px> {
        let mut families: Vec<&str> = vec![];
        for at in 0..len {
            let family = Self::family_at(at, style, highlights);
            if families.last() != Some(&family) {
                families.push(family);
            }
        }
        families
            .iter()
            .map(|family| px(font_size.0 * if *family == MONO { 0.5 } else { 0.625 }))
            .collect()
    }

    fn draw_object(
        &self,
        text: &str,
        _id: usize,
        _renderer: &Arc<()>,
        _style: &Tag,
        text_style: &Arc<Font>,
    ) -> MeasuredInlineObject<Plain> {
        self.drawn.set(self.drawn.get() + 1);
        let font_size = px(text_style.size);
        let (height, baseline) = Self::line_box(font_size);
        let width = Self::width_of(text, text_style.family, font_size);
        MeasuredInlineObject {
            metrics: ObjectMetrics { size: Size { width, height }, baseline },
            element: Arc::new(text.to_string()),
        }
    }

    fn fit_text(
        &self,
        object: &MeasuredInlineObject<Plain>,
        wrap_width: Option<Px>,
    ) -> MeasuredInlineObject<Plain> {
        let mut metrics = object.metrics;
        if let Some(wrap_width) = wrap_width {
            metrics.size.width = metrics.size.width.smaller(wrap_width);
        }
        MeasuredInlineObject { metrics, element: object.element.clone() }
    }

    fn image_size(
        &self,
        _ix: usize,
        _source: &Arc<Tag>,
        _width: Option<DefiniteLength<Px>>,
        _height: Option<DefiniteLength<Px>>,
    ) -> Size<Px> {
        self.measured_images.set(self.measured_images.get() + 1);
        let (width, height) = self.own_image_size.get().unwrap_or((0., 0.));
        Size { width: px(width), height: px(height) }
    }
}

fn typography(font_size: f32) -> InlineFlowTypography<Plain> {
    InlineFlowTypography {
        text_style: Arc::new(Font { family: BODY, size: font_size }),
        font_size: AbsoluteLength::Pixels(px(font_size)),
        white_space: WhiteSpace::Normal,
        rem_size: px(16.),
        line_height: px(LINE_HEIGHT),
    }
}

fn text_item(text: &str, highlights: Highlights<Plain>) -> MeasureItem<Plain> {
    MeasureItem::Text { text: text.to_string(), links: vec![], highlights }
}

fn image_item() -> MeasureItem<Plain> {
    MeasureItem::Image {
        source: Arc::new(Tag("https://example.com/badge.png")),
        width: None,
        height: None,
    }
}

fn object_item(text: &str, id: usize) -> MeasureItem<Plain> {
    MeasureItem::Object {
        text: text.to_string(),
        id,
        renderer: Arc::new(()),
        style: Tag(""),
    }
}

fn highlight(family: Option<&'static str>, scale: Option<f32>) -> InlineHighlight<Plain> {
    InlineHighlight {
        style: Tag(""),
        background_color: None,
        font_family: family.map(|family| Arc::new(Tag(family))),
        font_size_scale: scale.map(px),
    }
}

fn colored(family: &'static str, scale: f32, color: &'static str) -> InlineHighlight<Plain> {
    InlineHighlight {
        background_color: Some(Tag(color)),
        ..highlight(Some(family), Some(scale))
    }
}

fn text_of(item: &MeasureItem<Plain>) -> &str {
    match item {
        MeasureItem::Text { text, .. } => text,
        _ => panic!("not a text"),
    }
}

/// A text fragment: what it shows, the size of its font, where it starts and
/// how large it is.
type TextFragment<'a> = (&'a str, Px, Point<Px>, Size<Px>);

fn text_fragments(layout: &InlineFlowLayout<Plain>) -> Vec<TextFragment<'_>> {
    layout
        .fragments
        .iter()
        .filter_map(|fragment| match fragment {
            PositionedFragment::Text { text, font_size, origin, size, .. } => {
                Some((text.as_str(), *font_size, *origin, *size))
            }
            _ => None,
        })
        .collect()
}

/// What a layout shows, with an asterisk for an image or object.
fn shown(items: &[MeasureItem<Plain>], layout: &InlineFlowLayout<Plain>) -> String {
    layout
        .fragments
        .iter()
        .map(|fragment| match fragment {
            PositionedFragment::Text { item_ix, source_range, text, .. } => {
                assert_eq!(&text_of(&items[*item_ix])[source_range.clone()], text);
                text.as_str()
            }
            _ => "*",
        })
        .collect()
}

fn size(width: f32, height: f32) -> Size<Px> {
    Size { width: px(width), height: px(height) }
}

fn sides(size: Size<Px>) -> (f32, f32) {
    (size.width.0, size.height.0)
}

fn place(point: Point<Px>) -> (f32, f32) {
    (point.x.0, point.y.0)
}

#[test]
fn atomic_objects_wrap_and_share_a_baseline_at_multiple_font_sizes() {
    let window = WideMono::default();
    for scale in [1., 1.5, 2.] {
        let style = typography(16. * scale);
        let items = vec![
            text_item("中文 ", vec![]),
            object_item("x²", 0),
            object_item("y²", 1),
            text_item(" English", vec![]),
        ];
        for width in [1., 30., 80., 500.] {
            let layout =
                layout_flow(&items, &[None, None, None, None], &style, Some(px(width)), &window);
            let objects: Vec<_> = layout
                .fragments
                .iter()
                .filter_map(|fragment| match fragment {
                    PositionedFragment::Object { origin, object, .. } => Some((origin, object)),
                    _ => None,
                })
                .collect();
            assert_eq!(objects.len(), 2);
            for (origin, object) in &objects {
                assert!(object.metrics.size.width <= px(width));
                assert!(origin.y >= px(0.));
                assert!(origin.y.plus(object.metrics.size.height) <= layout.size.height);
            }
            if width == 500. {
                assert_eq!(
                    objects[0].0.y.plus(objects[0].1.metrics.baseline),
                    objects[1].0.y.plus(objects[1].1.metrics.baseline)
                );
            }
        }
    }
}

#[test]
fn inline_image_without_explicit_size_scales_intrinsic_ratio_to_line_height() {
    let line_height = px(20.);
    let intrinsic_size = size(160., 40.);

    let measured = inline_image_size_for_line(Some(intrinsic_size), line_height);

    assert_eq!(sides(measured), (60., 15.));
}

#[test]
fn inline_image_without_intrinsic_size_uses_compact_square_fallback() {
    let measured = inline_image_size_for_line(None, px(20.));

    assert_eq!(sides(measured), (15., 15.));
}

#[test]
fn inline_code_near_the_wrap_width_does_not_overflow_the_flow() {
    let window = WideMono::default();
    let font_size = px(10.);
    let style = typography(10.);
    let tail_text = " with code_span_here end";
    let code = tail_text.find("code_span_here").unwrap();
    let code_range = code..code + "code_span_here".len();
    let items = vec![
        text_item("See ", vec![]),
        image_item(),
        text_item(tail_text, vec![(code_range, highlight(Some(MONO), None))]),
    ];
    let image_size = size(10., 10.);
    let image_sizes = vec![None, Some(image_size), None];
    // Body text, the image and the mono span fill the wrap width exactly; the
    // trailing "end" only fits if the span is under-measured.
    let wrap_width = WideMono::width_of("See  with  ", BODY, font_size)
        .plus(image_size.width)
        .plus(WideMono::width_of("code_span_here", MONO, font_size));

    let layout = layout_flow(&items, &image_sizes, &style, Some(wrap_width), &window);

    assert!(
        layout.size.width <= wrap_width,
        "flow width {:?} exceeds wrap width {:?}",
        layout.size.width,
        wrap_width
    );
    let fragments = text_fragments(&layout);
    let mono_fragment_width = fragments
        .iter()
        .find(|(text, ..)| text.contains("code_span_here"))
        .map(|(_, _, _, size)| size.width)
        .expect("the code span is laid out as a text fragment");
    assert!(
        mono_fragment_width >= WideMono::width_of("code_span_here", MONO, font_size),
        "the code span fragment is shaped in the mono family"
    );
    // The image sits vertically centred in its line, so line membership is
    // read off the text fragments only.
    let text_lines: Vec<(&str, Px)> =
        fragments.iter().map(|(text, _, origin, _)| (text.trim(), origin.y)).collect();
    let first_y = text_lines[0].1;
    assert!(
        text_lines.iter().any(|(text, y)| text.contains("code_span_here") && *y == first_y),
        "the span stays on the first line: {text_lines:?}"
    );
    assert!(
        text_lines.iter().any(|(text, y)| *text == "end" && *y > first_y),
        "the trailing word wraps to a second line: {text_lines:?}"
    );
}

#[test]
fn long_inline_code_wraps_in_mixed_flow() {
    let window = WideMono::default();
    let style = typography(10.);
    for text in [
        "one two three four five six",
        "very_long_unbroken_identifier",
        "你好世界你好世界你好世界",
        "e\u{301}e\u{301}e\u{301}e\u{301}e\u{301}e\u{301}",
    ] {
        let items = vec![
            image_item(),
            text_item(text, vec![(0..text.len(), highlight(Some(MONO), None))]),
        ];
        let image_sizes = vec![Some(size(10., 10.)), None];
        let layout = layout_flow(&items, &image_sizes, &style, Some(px(100.)), &window);
        assert!(layout.size.width <= px(100.), "{text:?}: {:?}", layout.size);
        let reconstructed: String =
            text_fragments(&layout).iter().map(|(text, ..)| *text).collect();
        assert_eq!(reconstructed, text);
    }
}

#[test]
fn inline_code_size_is_relative_and_uses_the_native_body_baseline() {
    let window = WideMono::default();
    for body_size in [16., 20., 24.] {
        let style = typography(body_size);
        let code = || highlight(Some(MONO), Some(0.875));
        let items = vec![text_item("a code z", vec![(2..6, code())])];
        let layout = layout_flow(&items, &[None], &style, None, &window);
        let fragments = text_fragments(&layout);
        assert_eq!(fragments.len(), 3);
        assert_eq!(fragments[0].1, px(body_size));
        assert_eq!(fragments[1].0, "code");
        assert_eq!(fragments[1].1, px(body_size * 0.875));
        assert!(fragments[1].3.height >= fragments[0].3.height);
        assert_eq!(
            fragments[1].3.width,
            WideMono::width_of("code", MONO, px(body_size * 0.875)).plus(px(2. * 2.))
        );

        let body_line =
            window.shape_line("a", 0..1, &style.text_style, px(body_size), &vec![]);
        let body_line_height = window.pixel_snap(
            style.line_height.larger(body_line.ascent.plus(body_line.descent)),
        );
        let plain_body_baseline =
            (body_line_height.0 - body_line.ascent.0 - body_line.descent.0) / 2.
                + body_line.ascent.0;
        let painted_glyph_baseline = |fragment: &TextFragment| {
            let marks = if fragment.0 == "code" {
                vec![(0..fragment.0.len(), code())]
            } else {
                vec![]
            };
            let shaped = window.shape_line(
                fragment.0,
                0..fragment.0.len(),
                &style.text_style,
                fragment.1,
                &marks,
            );
            fragment.2.y.0
                + (fragment.3.height.0 - shaped.ascent.0 - shaped.descent.0) / 2.
                + shaped.ascent.0
        };

        assert_eq!(fragments[0].2.y, px(0.), "{body_size}px body origin");
        assert_eq!(
            painted_glyph_baseline(&fragments[0]),
            plain_body_baseline,
            "{body_size}px body glyph baseline"
        );
        assert_eq!(
            painted_glyph_baseline(&fragments[1]),
            plain_body_baseline,
            "{body_size}px code glyph baseline"
        );
    }
}

fn flow_text(text: &str, highlights: Highlights<Plain>) -> InlineFlowItem<Plain> {
    InlineFlowItem::Text {
        state: Arc::new(TextState::default()),
        text: text.to_string(),
        links: vec![],
        highlights,
    }
}

fn flow_object(text: &str, id: usize) -> InlineFlowItem<Plain> {
    InlineFlowItem::Object {
        text: text.to_string(),
        id,
        renderer: Arc::new(()),
        accessibility_label: text.to_string(),
        selected: Arc::new(()),
        style: Tag(""),
        link: None,
    }
}

fn flow_image(width: Option<f32>, height: Option<f32>) -> InlineFlowItem<Plain> {
    let length = |side: f32| DefiniteLength::Absolute(AbsoluteLength::Pixels(px(side)));
    InlineFlowItem::Image {
        source: Arc::new(Tag("https://example.com/icon.png")),
        link: None,
        title: String::new(),
        width: width.map(length),
        height: height.map(length),
    }
}

fn answer(text: &str, code: Range<usize>) -> Vec<InlineFlowItem<Plain>> {
    vec![flow_text(text, vec![(code, highlight(Some(MONO), Some(0.875)))])]
}

/// Draws a frame: measures the flow without constraint and at `width`, and
/// finds what is painted of the latter.
fn draw(
    items: &[InlineFlowItem<Plain>],
    width: f32,
    state: &mut InlineFlowFrameState<Plain>,
    window: &WideMono,
) -> Vec<PrepaintElement<Plain>> {
    let style = typography(16.);
    assert!(can_lay_out(&measure_items(items)));
    let objects = request_layout(items, &style, state, window);
    measure_flow(state, &objects, &style, None, AvailableSpace::MaxContent, window);
    let layout =
        measure_flow(state, &objects, &style, None, AvailableSpace::Definite(px(width)), window);
    let bounds = Bounds {
        origin: Point { x: px(100.), y: px(50.) },
        size: size(width, layout.size.height.0),
    };
    prepaint(items, &layout, bounds, state)
}

#[test]
fn an_unchanged_flow_is_not_laid_out_again() {
    let window = WideMono::default();
    let mut state = InlineFlowFrameState::new();
    draw(&answer("Call foo now.", 5..8), 300., &mut state, &window);
    let after_first_frame = window.shaped.get();
    assert!(after_first_frame >= 1, "the first frame lays the flow out");

    for _ in 0..3 {
        draw(&answer("Call foo now.", 5..8), 300., &mut state, &window);
    }

    assert_eq!(window.shaped.get(), after_first_frame, "a frame that changes nothing");
}

#[test]
fn a_flow_is_laid_out_again_at_another_width() {
    let window = WideMono::default();
    let mut state = InlineFlowFrameState::new();
    draw(&answer("Call foo now.", 5..8), 300., &mut state, &window);
    let before = window.shaped.get();

    draw(&answer("Call foo now.", 5..8), 120., &mut state, &window);

    assert!(window.shaped.get() > before, "a narrower flow wraps differently");
}

#[test]
fn a_flow_is_laid_out_again_when_its_text_changes() {
    let window = WideMono::default();
    let mut state = InlineFlowFrameState::new();
    draw(&answer("Call foo now.", 5..8), 300., &mut state, &window);
    let before = window.shaped.get();

    let code = || highlight(Some(MONO), Some(0.875));
    let changed = flow_text("Call foo and bar now.", vec![(5..8, code()), (13..16, code())]);
    draw(&[changed], 300., &mut state, &window);

    assert!(window.shaped.get() > before, "a new text has a new layout");
}

#[test]
fn a_flow_is_laid_out_again_when_its_marks_or_typography_change() {
    let window = WideMono::default();
    let mut state = InlineFlowFrameState::new();
    draw(&answer("Call foo now.", 5..8), 300., &mut state, &window);
    let mut before = window.shaped.get();
    draw(&answer("Call foo now.", 5..7), 300., &mut state, &window);
    assert!(window.shaped.get() > before);

    before = window.shaped.get();
    let items = answer("Call foo now.", 5..7);
    let style = typography(20.);
    let objects = request_layout(&items, &style, &mut state, &window);
    measure_flow(&mut state, &objects, &style, None, AvailableSpace::MaxContent, &window);
    assert!(window.shaped.get() > before);
}

#[test]
fn a_flow_with_an_object_is_laid_out_every_frame() {
    let window = WideMono::default();
    let mut state = InlineFlowFrameState::new();
    let items = vec![flow_text("see ", vec![]), flow_object("x²", 7)];
    draw(&items, 300., &mut state, &window);
    let before = window.shaped.get();
    draw(&items, 300., &mut state, &window);
    assert_eq!(window.shaped.get(), 2 * before);
    assert_eq!(window.drawn.get(), 2);
}

#[test]
fn an_image_that_loads_lays_its_flow_out_again() {
    let window = WideMono::default();
    let mut state = InlineFlowFrameState::new();
    let items = vec![flow_text("see ", vec![]), flow_image(None, None)];
    draw(&items, 300., &mut state, &window);
    let before = window.shaped.get();
    draw(&items, 300., &mut state, &window);
    assert_eq!(window.shaped.get(), before);
    window.own_image_size.set(Some((160., 40.)));
    draw(&items, 300., &mut state, &window);
    assert!(window.shaped.get() > before);
}

#[test]
fn an_image_with_both_sides_given_is_not_measured() {
    let window = WideMono::default();
    window.own_image_size.set(Some((160., 40.)));
    let items = measure_items(&[
        flow_image(Some(30.), Some(20.)),
        flow_text("between", vec![]),
        flow_image(Some(30.), None),
        flow_image(None, Some(20.)),
    ]);
    let sizes = measure_images(&items, &typography(16.), &window);
    assert_eq!(sides(sizes[0].unwrap()), (30., 20.));
    assert!(sizes[1].is_none());
    assert_eq!(sides(sizes[2].unwrap()), (30., 7.5));
    assert_eq!(sides(sizes[3].unwrap()), (80., 20.));
    assert_eq!(window.measured_images.get(), 2);
}

#[test]
fn a_flow_keeps_the_layouts_of_its_latest_widths() {
    let window = WideMono::default();
    let mut state = InlineFlowFrameState::new();
    let items = answer("Call foo now.", 5..8);
    let style = typography(16.);
    let objects = request_layout(&items, &style, &mut state, &window);
    let measure = |width: f32, state: &mut InlineFlowFrameState<Plain>| {
        let before = window.shaped.get();
        let layout = measure_flow(
            state,
            &objects,
            &style,
            Some(px(width)),
            AvailableSpace::Definite(px(1.)),
            &window,
        );
        assert_eq!(layout.wrap_width, Some(px(width)));
        (layout, window.shaped.get() > before)
    };
    let (first, laid_out) = measure(300., &mut state);
    assert!(laid_out);
    assert!(measure(200., &mut state).1);
    assert!(measure(100., &mut state).1);
    assert_eq!(state.layouts.len(), LAYOUTS_PER_FLOW);
    let (again, laid_out) = measure(300., &mut state);
    assert!(!laid_out && Rc::ptr_eq(&first, &again));
    // A fourth width takes the place of the oldest.
    assert!(measure(50., &mut state).1);
    assert_eq!(state.layouts.len(), LAYOUTS_PER_FLOW);
    assert!(!measure(200., &mut state).1);
    assert!(!measure(100., &mut state).1);
    assert!(measure(300., &mut state).1);
}

#[test]
fn text_that_does_not_wrap_is_laid_out_on_one_line() {
    let window = WideMono::default();
    let mut state = InlineFlowFrameState::new();
    let items = answer("Call foo now.", 5..8);
    let style = InlineFlowTypography { white_space: WhiteSpace::Nowrap, ..typography(16.) };
    let objects = request_layout(&items, &style, &mut state, &window);
    let layout = measure_flow(
        &mut state,
        &objects,
        &style,
        Some(px(20.)),
        AvailableSpace::MinContent,
        &window,
    );
    assert_eq!(layout.wrap_width, None);
    // The box of the smaller code reaches half a pixel further below.
    assert_eq!(layout.size.height, px(26.5));
    // "Call " and " now." at 8 a character, "foo" at 14, and its padding.
    assert_eq!(layout.size.width, px(5. * 8. + 3. * 14. + 4. + 5. * 8.));
}

/// Two flows under one id share their state. Each is measured in the typography
/// that it was requested with, also where the other was requested in between.
#[test]
fn a_flow_is_measured_in_its_own_typography() {
    let window = WideMono::default();
    let mut state = InlineFlowFrameState::new();
    let items = [flow_text("one two", vec![])];
    let wrapped = typography(16.);
    let unwrapped = InlineFlowTypography { white_space: WhiteSpace::Nowrap, ..typography(32.) };
    let first = request_layout(&items, &wrapped, &mut state, &window);
    let second = request_layout(&items, &unwrapped, &mut state, &window);
    let narrow = AvailableSpace::Definite(px(40.));
    let layout = measure_flow(&mut state, &first, &wrapped, None, narrow, &window);
    assert_eq!(layout.wrap_width, Some(px(40.)));
    assert_eq!(sides(layout.size), (4. * 8., 2. * 26.));
    let layout = measure_flow(&mut state, &second, &unwrapped, None, narrow, &window);
    assert_eq!(layout.wrap_width, None);
    assert_eq!(sides(layout.size), (7. * 16., 32.));
}

/// A layout carries its own texts: they are painted also where the items of the
/// flow are others by now.
#[test]
fn the_texts_of_a_layout_are_painted() {
    let window = WideMono::default();
    let mut state = InlineFlowFrameState::new();
    let items = measure_items(&[flow_text("one two", vec![])]);
    let layout = layout_flow(&items, &[None], &typography(16.), Some(px(40.)), &window);
    let bounds = Bounds { origin: Point { x: px(0.), y: px(0.) }, size: layout.size };
    let others = [flow_text("x", vec![])];
    let texts: Vec<String> = prepaint(&others, &layout, bounds, &mut state)
        .into_iter()
        .map(|element| match element {
            PrepaintElement::Text { text, .. } => text,
            _ => panic!("only texts"),
        })
        .collect();
    assert_eq!(texts, ["one ", "two"]);
}

#[test]
fn fragments_come_in_the_order_of_the_flow() {
    let window = WideMono::default();
    let items = vec![
        text_item("one two\nthree", vec![(4..7, highlight(Some(MONO), Some(0.875)))]),
        image_item(),
        object_item("x²", 0),
        text_item(" tail end", vec![]),
        image_item(),
    ];
    let image = Some(size(10., 10.));
    for wrap_width in [None, Some(px(1.)), Some(px(40.)), Some(px(400.))] {
        let layout =
            layout_flow(&items, &[None, image, None, None, image], &typography(16.), wrap_width, &window);
        let places: Vec<(usize, usize)> = layout
            .fragments
            .iter()
            .map(|fragment| match fragment {
                PositionedFragment::Text { item_ix, source_range, .. } => {
                    (*item_ix, source_range.start)
                }
                PositionedFragment::Image { item_ix, .. }
                | PositionedFragment::Object { item_ix, .. } => (*item_ix, 0),
            })
            .collect();
        assert!(places.windows(2).all(|pair| pair[0] < pair[1]), "{wrap_width:?}: {places:?}");
        for ix in [1, 2, 4] {
            assert_eq!(places.iter().filter(|place| place.0 == ix).count(), 1);
        }
    }
}

#[test]
fn an_empty_flow_takes_no_room() {
    let window = WideMono::default();
    let items: Vec<MeasureItem<Plain>> = vec![text_item("", vec![]), text_item("", vec![])];
    let layout = layout_flow(&items, &[None, None], &typography(16.), Some(px(40.)), &window);
    assert!(layout.fragments.is_empty());
    assert_eq!(sides(layout.size), (0., 0.));
    assert_eq!(layout.wrap_width, Some(px(40.)));
    assert_eq!(window.shaped.get(), 0);
}

#[test]
fn a_layout_shows_its_flow_without_the_line_feeds() {
    let window = WideMono::default();
    let items = vec![
        text_item("one\ntwo three", vec![(8..13, highlight(Some(MONO), Some(0.875)))]),
        image_item(),
        text_item("\n\n", vec![]),
        object_item("x²", 0),
        text_item(" tail", vec![]),
    ];
    let image_sizes = [None, Some(size(10., 10.)), None, None, None];
    let style = typography(16.);
    for wrap_width in [None, Some(px(1.)), Some(px(50.)), Some(px(100.)), Some(px(1000.))] {
        let layout = layout_flow(&items, &image_sizes, &style, wrap_width, &window);
        assert_eq!(shown(&items, &layout), "onetwo three** tail", "{wrap_width:?}");
    }
    // Four lines where nothing wraps, the third of them empty. The code on the
    // second one reaches half a pixel further below than other text.
    let layout = layout_flow(&items, &image_sizes, &style, None, &window);
    assert_eq!(layout.size.height, px(4. * 26. + 0.5));
}

#[test]
fn fragments_stand_side_by_side_on_one_baseline_and_inside_the_flow() {
    let window = WideMono::default();
    let items = vec![
        text_item("ab", vec![]),
        image_item(),
        object_item("xyz", 0),
        text_item("c", vec![]),
    ];
    let image_sizes = [None, Some(size(10., 40.)), None, None];
    let layout = layout_flow(&items, &image_sizes, &typography(16.), None, &window);
    // The text box is 26 high with its baseline at 17; the image has its
    // baseline at 40 / 2 + 17 - 26 / 2 = 24.
    let boxes: Vec<((f32, f32), (f32, f32))> = layout
        .fragments
        .iter()
        .map(|fragment| match fragment {
            PositionedFragment::Text { origin, size, .. } => (place(*origin), sides(*size)),
            PositionedFragment::Image { origin, size, .. } => (place(*origin), sides(*size)),
            PositionedFragment::Object { origin, object, .. } => {
                (place(*origin), sides(object.metrics.size))
            }
        })
        .collect();
    assert_eq!(
        boxes,
        vec![
            ((0., 7.), (16., 26.)),
            ((16., 0.), (10., 40.)),
            ((26., 7.), (24., 26.)),
            ((50., 7.), (8., 26.)),
        ]
    );
    assert_eq!(sides(layout.size), (58., 40.));
    for ((x, y), (width, height)) in boxes {
        assert!(x >= 0. && x + width <= layout.size.width.0);
        assert!(y >= 0. && y + height <= layout.size.height.0);
    }
    match &layout.fragments[0] {
        PositionedFragment::Text { selection_bounds, .. } => {
            assert_eq!(place(selection_bounds.origin), (0., 0.));
            assert_eq!(sides(selection_bounds.size), (16., 40.));
        }
        _ => panic!("a text comes first"),
    }
}

#[test]
fn code_has_its_background_in_a_box_of_its_own() {
    let window = WideMono::default();
    let items = vec![text_item("a code z", vec![(2..6, colored(MONO, 0.5, "grey"))])];
    let layout = layout_flow(&items, &[None], &typography(16.), None, &window);
    match &layout.fragments[1] {
        PositionedFragment::Text { origin, size, highlights, code_background, .. } => {
            // Text of 8 in a box of 26: its baseline is at 9 + 6. Capitals are
            // 4 high, and the room around them is 1 + 1.
            assert_eq!(place(*origin), (16., 2.));
            assert_eq!(sides(*size), (4. * 8. + 4., 26.));
            let (area, color) = code_background.as_ref().unwrap();
            assert_eq!(*color, Tag("grey"));
            assert_eq!(place(area.origin), (16., 2. + 15. - 4. - 2.));
            assert_eq!(sides(area.size), (36., 4. + 2. * 2.));
            assert_eq!(highlights.len(), 1);
            assert_eq!(highlights[0].0, 0..4);
            assert!(highlights[0].1.background_color.is_none());
            assert!(highlights[0].1.font_size_scale.is_some());
        }
        _ => panic!("the code is a text"),
    }
    // A background that is not of code stays with its text.
    let plain = InlineHighlight { background_color: Some(Tag("grey")), ..highlight(None, None) };
    let items = vec![text_item("a mark z", vec![(2..6, plain)])];
    let layout = layout_flow(&items, &[None], &typography(16.), None, &window);
    match &layout.fragments[0] {
        PositionedFragment::Text { highlights, code_background, .. } => {
            assert!(code_background.is_none());
            assert_eq!(highlights[0].1.background_color, Some(Tag("grey")));
        }
        _ => panic!("the flow is a text"),
    }
}

#[test]
fn what_is_painted_lies_at_the_bounds_of_the_flow() {
    let window = WideMono::default();
    let mut state = InlineFlowFrameState::new();
    let items = vec![
        flow_text("a code z", vec![(2..6, colored(MONO, 0.5, "grey"))]),
        flow_object("xy", 9),
        flow_image(Some(10.), Some(10.)),
    ];
    let elements = draw(&items, 300., &mut state, &window);
    assert_eq!(elements.len(), 5);
    match &elements[1] {
        PrepaintElement::Text {
            item_ix,
            state_ix,
            state: own,
            source_range,
            font_size,
            line_height,
            text,
            origin,
            available,
            line_bounds,
            background,
            ..
        } => {
            assert_eq!((*item_ix, *state_ix), (0, 1));
            assert!(Arc::ptr_eq(own, &state.fragment_states[1]));
            assert_eq!((source_range.clone(), text.as_str()), (2..6, "code"));
            assert_eq!((*font_size, *line_height), (px(8.), px(26.)));
            // The text starts after the padding at its left.
            assert_eq!(place(*origin), (100. + 16. + 2., 50. + 2.));
            assert_eq!(sides(*available), (36. - 4., 26.));
            assert_eq!(place(line_bounds.origin), (100., 50.));
            assert_eq!(sides(line_bounds.size), (300., 28.));
            let (area, color) = background.as_ref().unwrap();
            assert_eq!(place(area.origin), (116., 61.));
            assert_eq!(sides(area.size), (36., 8.));
            assert_eq!(*color, Tag("grey"));
        }
        _ => panic!("the code is a text"),
    }
    match &elements[3] {
        PrepaintElement::Object { id, origin, available, selection_bounds, line_bounds, .. } => {
            assert_eq!(*id, 9);
            assert_eq!(place(*origin), (100. + 68., 50.));
            assert_eq!(sides(*available), (16., 26.));
            assert_eq!(place(selection_bounds.origin), (168., 50.));
            assert_eq!(sides(selection_bounds.size), (16., 28.));
            assert_eq!(sides(line_bounds.size), (300., 28.));
        }
        _ => panic!("an object comes fourth"),
    }
    match &elements[4] {
        PrepaintElement::Image { item_ix, element_ix, origin, size } => {
            assert_eq!((*item_ix, *element_ix), (2, 4));
            // The baseline of the image is at 5 + 17 - 13 = 9.
            assert_eq!(place(*origin), (100. + 84., 50. + 17. - 9.));
            assert_eq!(sides(*size), (10., 10.));
        }
        _ => panic!("an image comes last"),
    }
}

#[test]
fn texts_keep_their_states_from_frame_to_frame() {
    let window = WideMono::default();
    let mut state = InlineFlowFrameState::new();
    draw(&answer("Call foo now.", 5..8), 300., &mut state, &window);
    let first: Vec<Arc<TextState>> = state.fragment_states.clone();
    assert_eq!(first.len(), 3);
    assert!(first.iter().all(|state| state.selection.is_none()));
    draw(&answer("Call foo now.", 5..8), 300., &mut state, &window);
    assert_eq!(state.fragment_states.len(), 3);
    for (kept, own) in state.fragment_states.iter().zip(&first) {
        assert!(Arc::ptr_eq(kept, own));
    }
    // A frame of fewer texts drops the states past them, and one of more makes
    // fresh ones.
    draw(&[flow_text("Call", vec![])], 300., &mut state, &window);
    assert_eq!(state.fragment_states.len(), 1);
    assert!(Arc::ptr_eq(&state.fragment_states[0], &first[0]));
    draw(&answer("Call foo now.", 5..8), 300., &mut state, &window);
    assert_eq!(state.fragment_states.len(), 3);
    assert!(Arc::ptr_eq(&state.fragment_states[0], &first[0]));
    assert!(!Arc::ptr_eq(&state.fragment_states[1], &first[1]));
    // A state past the last makes those before it as well.
    let own = state.fragment_state(5);
    assert_eq!(state.fragment_states.len(), 6);
    assert!(Arc::ptr_eq(&own, &state.fragment_states[5]));
}

#[test]
fn fragments_of_another_kind_than_their_item_are_not_painted() {
    let window = WideMono::default();
    let mut state = InlineFlowFrameState::new();
    let items = measure_items(&[flow_text("one", vec![]), flow_text("two", vec![])]);
    let layout = layout_flow(&items, &[None, None], &typography(16.), None, &window);
    let bounds = Bounds { origin: Point { x: px(0.), y: px(0.) }, size: layout.size };
    let changed = [flow_image(None, None), flow_text("two", vec![])];
    let elements = prepaint(&changed, &layout, bounds, &mut state);
    assert_eq!(elements.len(), 1);
    assert!(matches!(elements[0], PrepaintElement::Text { item_ix: 1, state_ix: 0, .. }));
    assert_eq!(state.fragment_states.len(), 1);
}

#[test]
fn painting_ends_the_selection_of_texts_only() {
    let items = vec![
        flow_text("one", vec![]),
        flow_image(None, None),
        flow_text("two", vec![]),
        flow_object("x", 0),
    ];
    assert_eq!(selections_to_clear(&items, false), vec![0, 2]);
    assert_eq!(selections_to_clear(&items, true), Vec::<usize>::new());
}

#[test]
fn the_intrinsic_width_is_that_of_the_widest_unwrapped_line() {
    let window = WideMono::default();
    let items = vec![
        flow_text("one two three\nfour", vec![]),
        flow_object("xy", 0),
        flow_image(Some(10.), Some(10.)),
    ];
    assert_eq!(intrinsic_width(&items, &typography(16.), &window), px(13. * 8.));
}

#[test]
fn two_lines_are_as_wide_as_the_wider_one() {
    let window = WideMono::default();
    let width = |text: &str| intrinsic_width(&[flow_text(text, vec![])], &typography(16.), &window);
    assert_eq!(width(""), px(0.));
    for (head, tail) in [("one", "three"), ("three", "one"), ("", "one"), ("one", ""), ("a\nbc", "d")] {
        assert_eq!(width(&format!("{head}\n{tail}")), width(head).larger(width(tail)));
    }
}

#[test]
fn a_blank_line_adds_the_height_of_the_body() {
    let window = WideMono::default();
    let layout = |text: &str| {
        let items = [text_item(text, vec![])];
        let layout = layout_flow(&items, &[None], &typography(16.), None, &window);
        let texts: Vec<String> =
            text_fragments(&layout).iter().map(|(text, ..)| text.to_string()).collect();
        (sides(layout.size), texts)
    };
    let (size, texts) = layout("a\nb");
    let (with_blank, same_texts) = layout("a\n\nb");
    assert_eq!(size, (8., 2. * 26.));
    assert_eq!(with_blank, (8., 3. * 26.));
    assert_eq!(texts, ["a", "b"]);
    assert_eq!(same_texts, texts);
}

fn described(fragments: &[WrapFragment<Px>]) -> Vec<String> {
    fragments
        .iter()
        .map(|fragment| match fragment {
            WrapFragment::Text(text) => text.to_string(),
            WrapFragment::Element { width, len } => format!("{}:{len}", width.0),
        })
        .collect()
}

#[test]
fn given_words_are_kept_or_cut_at_their_graphemes() {
    let window = WideMono::default();
    let mono = highlight(Some(MONO), None);
    let style = typography(10.);
    let mut fragments = vec![WrapFragment::Text("x")];
    push_words(&mut fragments, &vec!["ab", "cdef"], &mono, &style, px(30.), &window);
    assert_eq!(described(&fragments), ["x", "20:2", "10:1", "10:1", "10:1", "10:1"]);
    let mut fragments = vec![];
    push_word(&mut fragments, "abc", &mono, &style, px(30.), &window);
    assert_eq!(described(&fragments), ["30:3"]);
    let mut fragments = vec![];
    push_graphemes(&mut fragments, &vec!["ab", "e\u{301}"], &mono, &style, &window);
    assert_eq!(described(&fragments), ["20:2", "20:3"]);
}

fn wrap_fragments(
    text: &str,
    highlights: Highlights<Plain>,
    range: Range<usize>,
    wrap_width: f32,
) -> Vec<String> {
    let window = WideMono::default();
    let marks = highlights.iter().map(|(range, mark)| (range.clone(), mark.copied()));
    assert!(can_lay_out(&[text_item(text, marks.collect())]));
    let mut fragments = vec![];
    push_text_wrap_fragments(
        &mut fragments,
        text,
        &highlights,
        &range,
        &typography(10.),
        px(wrap_width),
        &window,
    );
    described(&fragments)
}

#[test]
fn a_span_in_another_font_enters_the_wrapper_measured() {
    let code = vec![(4..8, highlight(Some(MONO), Some(0.5)))];
    // Four characters at 5, and the padding of code.
    assert_eq!(wrap_fragments("see code now", code, 0..12, 100.), ["see ", "24:4", " now"]);
    let mono = vec![(4..8, highlight(Some(MONO), None))];
    assert_eq!(wrap_fragments("see code now", mono, 6..12, 100.), ["20:2", " now"]);
    let plain = vec![(4..8, highlight(None, Some(0.5)))];
    assert_eq!(wrap_fragments("see code now", plain, 0..12, 100.), ["see code now"]);
}

#[test]
fn a_span_too_wide_for_a_line_is_cut_at_its_words() {
    let mono = vec![(0..11, highlight(Some(MONO), None))];
    assert_eq!(wrap_fragments("hello world", mono, 0..11, 60.), ["50:5", "10:1", "50:5"]);
    let code = vec![(0..11, highlight(Some(MONO), Some(0.5)))];
    assert_eq!(wrap_fragments("hello world", code, 0..11, 50.), ["29:5", "9:1", "29:5"]);
}

#[test]
fn a_word_too_wide_for_a_line_is_cut_between_its_graphemes() {
    let text = "e\u{301}e\u{301}x";
    let mono = vec![(0..text.len(), highlight(Some(MONO), None))];
    assert_eq!(wrap_fragments(text, mono, 0..text.len(), 30.), ["20:3", "20:3", "10:1"]);
}

#[test]
fn highlights_that_overlap_give_each_byte_one_span() {
    let marks = vec![
        (2..6, highlight(Some(MONO), None)),
        (0..4, highlight(Some(MONO), None)),
        (5..9, highlight(Some(MONO), None)),
    ];
    assert_eq!(wrap_fragments("abcdefghij", marks, 0..10, 100.), ["ab", "40:4", "30:3", "j"]);
}

#[test]
fn a_flow_is_broken_at_its_line_feeds() {
    let lines = |items: &[MeasureItem<Plain>]| hard_lines(items);
    assert_eq!(lines(&[]), vec![0..0]);
    assert_eq!(lines(&[text_item("a\n", vec![]), text_item("b", vec![])]), vec![0..1, 2..3]);
    assert_eq!(lines(&[text_item("\n\n", vec![])]), vec![0..0, 1..1, 2..2]);
    assert_eq!(
        lines(&[text_item("ab", vec![]), image_item(), text_item("c\nd", vec![])]),
        vec![0..4, 5..6]
    );
    assert_eq!(checked_len(&[text_item("中", vec![]), image_item()]), Some(4));
}

#[test]
fn a_flow_is_wrapped_line_by_line() {
    let window = WideMono::default();
    let items = vec![text_item("one two\nthree four", vec![])];
    let style = typography(10.);
    let ranges = line_ranges(&items, &[None], &[None], &style, Some(px(30.)), &window);
    assert_eq!(ranges, vec![0..4, 4..7, 8..14, 14..18]);
    let ranges = line_ranges(&items, &[None], &[None], &style, None, &window);
    assert_eq!(ranges, vec![0..7, 8..18]);
}

#[test]
fn a_line_is_planned_by_item_and_size() {
    let items = vec![text_item("abcdef", vec![]), image_item(), text_item("gh", vec![])];
    let sizes = vec![
        vec![(0..2, px(1.)), (2..4, px(0.5)), (4..6, px(1.))],
        vec![],
        vec![(0..2, px(1.))],
    ];
    let plan = |line: Range<usize>| -> Vec<(usize, usize, usize, f32)> {
        plan_line(&items, &sizes, &line)
            .iter()
            .map(|planned| match planned {
                PlannedFragment::Text { item_ix, start, end, scale } => {
                    (*item_ix, *start, *end, scale.0)
                }
                PlannedFragment::Atom { item_ix } => (*item_ix, 0, 0, 0.),
            })
            .collect()
    };
    assert_eq!(plan(1..3), vec![(0, 1, 2, 1.), (0, 2, 3, 0.5)]);
    assert_eq!(plan(4..8), vec![(0, 4, 6, 1.), (1, 0, 0, 0.), (2, 0, 1, 1.)]);
    assert_eq!(plan(0..6), vec![(0, 0, 2, 1.), (0, 2, 4, 0.5), (0, 4, 6, 1.)]);
    assert_eq!(plan(6..6), vec![]);
}

#[test]
fn a_span_that_splits_a_character_cannot_be_laid_out() {
    let marked = |range: Range<usize>, family: Option<&'static str>| {
        can_lay_out(&[text_item("中文", vec![(range, highlight(family, None))])])
    };
    assert!(marked(0..3, Some(MONO)));
    assert!(marked(3..100, Some(MONO)));
    assert!(!marked(1..3, Some(MONO)));
    assert!(!marked(3..4, Some(MONO)));
    assert!(marked(1..4, None));
    // The end of a line is the end of a span on it.
    let across = vec![(0..9, highlight(Some(MONO), None))];
    assert!(can_lay_out(&[text_item("中\n文", across)]));
}

#[test]
fn objects_are_fitted_to_the_wrap_width_only() {
    let window = WideMono::default();
    let items = vec![object_item("abcdefgh", 0)];
    let drawn = window.draw_object(
        "abcdefgh",
        0,
        &Arc::new(()),
        &Tag(""),
        &typography(16.).text_style,
    );
    let objects = [Some(drawn)];
    let style = typography(16.);
    let wide = layout_measured_flow(&items, &[None], &objects, &style, None, &window);
    assert_eq!(sides(wide.size), (64., 26.));
    let narrow = layout_measured_flow(&items, &[None], &objects, &style, Some(px(40.)), &window);
    assert_eq!(sides(narrow.size), (40., 26.));
}
