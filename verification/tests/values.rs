//! The parts of a layout that take values and give values back, in fixed
//! point.

use std::cell::RefCell;
use std::ops::Range;
use std::sync::Arc;

use inline_flow::backend::{InlineFlowTypography, ShapedLine, WhiteSpace};
use inline_flow::fragment::{
    baseline_in_box, baseline_in_image, code_background, fragment_of_text, has_code,
    LineFragmentKind, LineFragmentLayout,
};
use inline_flow::frame::{flow_wrap_width, AvailableSpace, FlowLayoutKey};
use inline_flow::geometry::{AbsoluteLength, DefiniteLength, Size};
use inline_flow::image::{image_size, inline_image_size_for_line, intrinsic_image_size};
use inline_flow::item::{MeasureItem, IMAGE_LEN};
use inline_flow::kit::Kit;
use inline_flow::layout::{place_lines, MeasuredLine, PositionedFragment};
use inline_flow::marks::{slice_ranges, InlineHighlight};
use inline_flow::number::{Fixed, Number, Same, FIXED_ONE};
use inline_flow::spans::{text_spans, TextSpan};
use inline_flow::text::text_in;
use inline_flow::wrap::cut_line;

#[derive(Clone, Copy, Debug, PartialEq)]
struct Tag(u32);

impl Same for Tag {
    fn same(self, other: Self) -> bool {
        self.is_same(&other)
    }

    fn is_same(&self, other: &Self) -> bool {
        self == other
    }
}

struct Steps;

impl Kit for Steps {
    type Num = Fixed;
    type Style = Tag;
    type Color = Tag;
    type Family = Tag;
    type Link = Tag;
    type TextStyle = Tag;
    type Renderer = ();
    type Object = ();
    type Selected = ();
    type Source = ();
    type TextState = ();
}

fn whole(value: i64) -> Fixed {
    Fixed { raw: value * FIXED_ONE }
}

fn size(width: i64, height: i64) -> Size<Fixed> {
    Size { width: whole(width), height: whole(height) }
}

fn sides(size: Size<Fixed>) -> (Fixed, Fixed) {
    (size.width, size.height)
}

fn pixels(value: i64) -> DefiniteLength<Fixed> {
    DefiniteLength::Absolute(AbsoluteLength::Pixels(whole(value)))
}

#[test]
fn fixed_point_rounds_down_and_saturates() {
    assert_eq!(Fixed::ratio(3, 4), Fixed { raw: 49152 });
    assert_eq!(Fixed::ratio(1, 3), Fixed { raw: 21845 });
    assert_eq!(Fixed::ratio(1, 0), Fixed { raw: i64::MAX });
    assert_eq!(Fixed::ratio(0, 0), Fixed::zero());
    assert_eq!(whole(3).plus(whole(4)), whole(7));
    assert_eq!(whole(3).minus(whole(4)), whole(-1));
    assert_eq!(whole(-3).times(Fixed::ratio(1, 2)), Fixed { raw: -98304 });
    assert_eq!(whole(7).over(whole(-2)), Fixed { raw: -229376 });
    assert_eq!(Fixed { raw: -1 }.times(Fixed::ratio(1, 2)), Fixed { raw: -1 });
    assert_eq!(Fixed { raw: i64::MAX }.plus(whole(1)), Fixed { raw: i64::MAX });
    assert_eq!(Fixed { raw: i64::MIN }.minus(whole(1)), Fixed { raw: i64::MIN });
    assert_eq!(Fixed { raw: i64::MIN }.times(whole(-2)), Fixed { raw: i64::MAX });
    assert_eq!(whole(-1).over(Fixed::zero()), Fixed { raw: i64::MIN });
    assert_eq!(whole(2).larger(whole(3)), whole(3));
    assert_eq!(whole(2).smaller(whole(3)), whole(2));
    assert!(whole(2).at_most(whole(2)) && !whole(2).below(whole(2)));
    assert!(whole(2).below(whole(3)) && !whole(3).at_most(whole(2)));
}

#[test]
fn an_image_takes_the_sides_that_are_given() {
    let (line, rem) = (whole(20), whole(16));
    let own = Some(size(160, 40));
    let sized = |width, height, own| sides(image_size(width, height, own, line, rem));
    assert_eq!(sized(Some(pixels(30)), Some(pixels(10)), own), (whole(30), whole(10)));
    assert_eq!(sized(Some(pixels(30)), Some(pixels(10)), None), (whole(30), whole(10)));
    assert_eq!(sized(Some(pixels(80)), None, own), (whole(80), whole(20)));
    assert_eq!(sized(Some(pixels(80)), None, None), (whole(80), line));
    assert_eq!(sized(None, Some(pixels(10)), own), (whole(40), whole(10)));
    assert_eq!(sized(None, Some(pixels(10)), None), (whole(10), whole(10)));
    assert_eq!(sized(None, None, own), (whole(60), whole(15)));
    // A side without length leaves the image without a shape.
    assert_eq!(sized(Some(pixels(80)), None, Some(size(0, 40))), (whole(80), line));
    assert_eq!(sized(None, Some(pixels(10)), Some(size(160, 0))), (whole(10), whole(10)));
    assert_eq!(sized(None, None, Some(size(-1, 40))), (whole(15), whole(15)));
}

#[test]
fn lengths_count_rems_and_parts_of_the_line() {
    let (line, rem) = (whole(20), whole(16));
    let rems = DefiniteLength::Absolute(AbsoluteLength::Rems(Fixed::ratio(3, 2)));
    let half = DefiniteLength::Fraction(Fixed::ratio(1, 2));
    let sized = image_size(Some(rems), Some(half), None, line, rem);
    assert_eq!(sides(sized), (whole(24), whole(10)));
}

#[test]
fn an_image_is_never_smaller_than_a_pixel() {
    let sized = inline_image_size_for_line(Some(size(1, 100)), whole(1));
    assert_eq!(sides(sized), (whole(1), whole(1)));
    let sized = inline_image_size_for_line(None, whole(0));
    assert_eq!(sides(sized), (whole(1), whole(1)));
}

#[test]
fn an_image_without_area_has_no_size_of_its_own() {
    assert_eq!(intrinsic_image_size(size(3, 4)).map(sides), Some((whole(3), whole(4))));
    assert!(intrinsic_image_size(size(0, 4)).is_none());
    assert!(intrinsic_image_size(size(3, -1)).is_none());
}

#[test]
fn marks_are_clipped_to_a_slice() {
    let ranges = [(0..3, 'a'), (2..6, 'b'), (6..9, 'c'), (4..4, 'd'), (5..20, 'e')];
    let seen: RefCell<usize> = RefCell::new(0);
    let sliced = slice_ranges(&ranges, 2, 6, |range: Range<usize>, value: &char| {
        *seen.borrow_mut() += 1;
        (range, *value)
    });
    assert_eq!(sliced, vec![(0..1, 'a'), (0..4, 'b'), (3..4, 'e')]);
    assert_eq!(*seen.borrow(), 3);
    assert!(slice_ranges(&ranges, 6, 2, |range, _| range).is_empty());
    // Every byte has the same marks before and after.
    for at in 2..6 {
        let before: Vec<char> =
            ranges.iter().filter(|(range, _)| range.contains(&at)).map(|mark| mark.1).collect();
        let after: Vec<char> = sliced
            .iter()
            .filter(|(range, _)| range.contains(&(at - 2)))
            .map(|mark| mark.1)
            .collect();
        assert_eq!(before, after);
    }
}

#[test]
fn a_slice_of_a_slice_is_one_slice() {
    let ranges = [(0..3, 'a'), (2..9, 'b'), (6..9, 'c'), (5..20, 'e')];
    let slice = |ranges: &[(Range<usize>, char)], start: usize, end: usize| {
        slice_ranges(ranges, start, end, |range: Range<usize>, value: &char| (range, *value))
    };
    for (start, end, inner_start, inner_end) in
        [(1, 8, 2, 5), (1, 8, 2, 50), (4, 2, 0, 9), (0, 20, 3, 3), (3, 7, 9, 12)]
    {
        let twice = slice(&slice(&ranges, start, end), inner_start, inner_end);
        let once = slice(&ranges, start + inner_start, end.min(start + inner_end));
        assert_eq!(twice, once);
    }
    assert_eq!(slice(&ranges, 0, 20), ranges.to_vec());
}

#[test]
fn a_line_is_cut_at_its_breaks() {
    assert_eq!(cut_line(&(3..9), &[2, 4]), vec![3..5, 5..7, 7..9]);
    assert_eq!(cut_line(&(3..9), &[]), vec![3..9]);
    assert_eq!(cut_line(&(3..9), &[0, 2, 2]), vec![3..5, 5..9]);
    // A break past the end of the line is one at its end.
    assert_eq!(cut_line(&(3..9), &[2, 40]), vec![3..5, 5..9]);
    assert_eq!(cut_line(&(3..3), &[]), vec![3..3]);
    assert_eq!(cut_line(&(3..3), &[1]), vec![3..3]);
}

fn marked(family: Option<u32>) -> InlineHighlight<Steps> {
    InlineHighlight {
        style: Tag(0),
        background_color: None,
        font_family: family.map(|family| Arc::new(Tag(family))),
        font_size_scale: None,
    }
}

#[test]
fn spans_cover_their_range_one_after_the_other() {
    let marks = vec![
        (3..5, marked(Some(1))),
        (4..8, marked(None)),
        (1..7, marked(Some(2))),
        (9..30, marked(Some(3))),
    ];
    let spans: Vec<(usize, usize, Option<usize>)> = text_spans(&marks, &(2..12))
        .iter()
        .map(|span| match span {
            TextSpan::Body { start, end } => (*start, *end, None),
            TextSpan::Styled { start, end, highlight } => (*start, *end, Some(*highlight)),
        })
        .collect();
    assert_eq!(
        spans,
        vec![
            (2, 3, None),
            (3, 5, Some(0)),
            (5, 7, Some(2)),
            (7, 9, None),
            (9, 12, Some(3)),
        ]
    );
    assert!(text_spans(&marks, &(4..4)).is_empty());
}

#[test]
fn a_byte_is_styled_by_the_first_highlight_with_a_family() {
    let marks = vec![
        (1..4, marked(Some(1))),
        (2..6, marked(None)),
        (3..8, marked(Some(2))),
        (5..7, marked(Some(3))),
    ];
    let spans = text_spans(&marks, &(0..10));
    for at in 0..10 {
        let first = marks
            .iter()
            .position(|(range, mark)| mark.font_family.is_some() && range.contains(&at));
        let by: Vec<Option<usize>> = spans
            .iter()
            .filter_map(|span| match span {
                TextSpan::Body { start, end } if (*start..*end).contains(&at) => Some(None),
                TextSpan::Styled { start, end, highlight } if (*start..*end).contains(&at) => {
                    Some(Some(*highlight))
                }
                _ => None,
            })
            .collect();
        assert_eq!(by, vec![first]);
    }
}

#[test]
fn a_code_box_is_centered_on_the_capitals() {
    let mut marks = vec![
        (0..1, marked(None)),
        (0..2, InlineHighlight { background_color: Some(Tag(7)), ..marked(None) }),
        (1..3, InlineHighlight { background_color: Some(Tag(8)), ..marked(None) }),
    ];
    assert!(!has_code(&marks));
    let heights = [whole(5), whole(6), whole(4)];
    // The room is 16 / 8 + 4 / 2 on either side.
    let (area, color) =
        code_background::<Steps>(&heights, whole(4), whole(16), &mut marks, size(30, 26), whole(18))
            .unwrap();
    assert_eq!(color, Tag(7));
    assert_eq!((area.origin.x, area.origin.y), (whole(0), whole(18 - 6 - 4)));
    assert_eq!(sides(area.size), (whole(30), whole(6 + 8)));
    assert!(marks.iter().all(|(_, mark)| mark.background_color.is_none()));
    assert_eq!(marks.len(), 3);
    // Without a color there is no box.
    assert!(
        code_background::<Steps>(&heights, whole(4), whole(16), &mut marks, size(30, 26), whole(18))
            .is_none()
    );
    marks[1].1.font_size_scale = Some(Fixed::ratio(7, 8));
    assert!(has_code(&marks));
}

#[test]
fn a_range_that_splits_a_character_holds_no_text() {
    assert_eq!(text_in("中文", 0, 3), "中");
    assert_eq!(text_in("中文", 3, 6), "文");
    assert_eq!(text_in("中文", 3, 3), "");
    assert_eq!(text_in("中文", 1, 3), "");
    assert_eq!(text_in("中文", 3, 9), "");
    assert_eq!(text_in("中文", 3, 0), "");
}

#[test]
fn text_stands_in_the_middle_of_its_box() {
    let shaped = ShapedLine { width: whole(30), ascent: whole(12), descent: whole(4) };
    assert_eq!(baseline_in_box(&shaped, whole(26)), whole(5 + 12));
    assert_eq!(baseline_in_box(&shaped, whole(16)), whole(12));
}

#[test]
fn an_image_has_its_middle_where_the_line_has() {
    assert_eq!(baseline_in_image(whole(40), whole(17), whole(26)), whole(20 + 17 - 13));
    // The baseline stays inside the image.
    assert_eq!(baseline_in_image(whole(4), whole(17), whole(26)), whole(4));
    assert_eq!(baseline_in_image(whole(4), whole(1), whole(26)), whole(0));
}

#[test]
fn a_text_fragment_is_padded_where_it_is_code() {
    let shaped = ShapedLine { width: whole(30), ascent: whole(12), descent: whole(4) };
    let fragment = |scale: Option<Fixed>| {
        let mark = InlineHighlight {
            background_color: Some(Tag(7)),
            font_size_scale: scale,
            ..marked(Some(1))
        };
        fragment_of_text::<Steps>(
            3,
            "code".to_string(),
            vec![(0..2, Arc::new(Tag(5)))],
            vec![(0..4, mark)],
            10..14,
            whole(16),
            shaped,
            whole(26),
            &[whole(10)],
        )
    };
    let code = fragment(Some(Fixed::ratio(7, 8)));
    assert_eq!((code.item_ix, code.source_range), (3, 10..14));
    assert_eq!(sides(code.size), (whole(34), whole(26)));
    assert_eq!(code.baseline, whole(17));
    match code.kind {
        LineFragmentKind::Text { font_size, text, links, highlights, code_background } => {
            assert_eq!(text, "code");
            assert_eq!(font_size, whole(16));
            assert_eq!(links, vec![(0..2, Arc::new(Tag(5)))]);
            assert!(highlights[0].1.background_color.is_none());
            let (area, color) = code_background.unwrap();
            assert_eq!(color, Tag(7));
            assert_eq!(area.origin.y, whole(17 - 10 - 4));
            assert_eq!(sides(area.size), (whole(34), whole(10 + 8)));
        }
        _ => panic!("a text"),
    }
    let plain = fragment(None);
    assert_eq!(sides(plain.size), (whole(30), whole(26)));
    match plain.kind {
        LineFragmentKind::Text { highlights, code_background, .. } => {
            assert_eq!(highlights[0].1.background_color, Some(Tag(7)));
            assert!(code_background.is_none());
        }
        _ => panic!("a text"),
    }
}

#[test]
fn a_flow_wraps_at_the_width_it_is_given() {
    let definite = AvailableSpace::Definite(5);
    assert_eq!(flow_wrap_width(WhiteSpace::Normal, Some(3), definite), Some(3));
    assert_eq!(flow_wrap_width(WhiteSpace::Normal, None, definite), Some(5));
    assert_eq!(flow_wrap_width(WhiteSpace::Normal, None, AvailableSpace::<u8>::MinContent), None);
    assert_eq!(flow_wrap_width(WhiteSpace::Normal, None, AvailableSpace::<u8>::MaxContent), None);
    assert_eq!(flow_wrap_width(WhiteSpace::Nowrap, Some(3), definite), None);
}

fn image_fragment(item_ix: usize, width: i64, height: i64, baseline: i64) -> LineFragmentLayout<Steps> {
    LineFragmentLayout {
        item_ix,
        kind: LineFragmentKind::Image,
        size: size(width, height),
        source_range: 0..IMAGE_LEN,
        baseline: whole(baseline),
    }
}

#[test]
fn lines_stand_below_each_other_as_high_as_they_need() {
    let lines = vec![
        MeasuredLine {
            body_height: whole(20),
            body_baseline: whole(15),
            fragments: vec![image_fragment(0, 10, 30, 10), image_fragment(1, 7, 18, 18)],
        },
        MeasuredLine { body_height: whole(20), body_baseline: whole(15), fragments: vec![] },
        MeasuredLine {
            body_height: whole(20),
            body_baseline: whole(15),
            fragments: vec![image_fragment(2, 12, 4, 4)],
        },
    ];
    let layout = place_lines(lines, Some(whole(40)));
    let origins: Vec<(usize, Fixed, Fixed)> = layout
        .fragments
        .iter()
        .map(|fragment| match fragment {
            PositionedFragment::Image { item_ix, origin, .. } => (*item_ix, origin.x, origin.y),
            _ => panic!("only images"),
        })
        .collect();
    // The first line reaches 18 above and 20 below its baseline, the others as
    // far as their body.
    assert_eq!(
        origins,
        vec![
            (0, whole(0), whole(8)),
            (1, whole(10), whole(0)),
            (2, whole(0), whole(38 + 20 + 11)),
        ]
    );
    assert_eq!(sides(layout.size), (whole(17), whole(38 + 20 + 20)));
    assert_eq!(layout.wrap_width, Some(whole(40)));
}

#[test]
fn keys_match_in_either_order() {
    let key = |text: &str, line_height: i64| FlowLayoutKey::<Steps> {
        items: vec![MeasureItem::Text {
            text: text.to_string(),
            links: vec![(0..1, Arc::new(Tag(1)))],
            highlights: vec![(0..1, marked(Some(1)))],
        }],
        image_sizes: vec![None],
        typography: InlineFlowTypography {
            text_style: Arc::new(Tag(1)),
            font_size: AbsoluteLength::Pixels(whole(16)),
            white_space: WhiteSpace::Normal,
            rem_size: whole(16),
            line_height: whole(line_height),
        },
    };
    assert!(key("a", 20).matches(&key("a", 20)));
    assert!(!key("a", 20).matches(&key("b", 20)) && !key("b", 20).matches(&key("a", 20)));
    assert!(!key("a", 20).matches(&key("a", 21)) && !key("a", 21).matches(&key("a", 20)));
}

#[test]
fn items_lay_out_alike_by_what_their_layout_takes() {
    let text = |text: &str, link: u32| MeasureItem::<Steps>::Text {
        text: text.to_string(),
        links: vec![(0..1, Arc::new(Tag(link)))],
        highlights: vec![(0..1, marked(Some(1)))],
    };
    let image = |width: i64| MeasureItem::<Steps>::Image {
        source: Arc::new(()),
        width: Some(pixels(width)),
        height: None,
    };
    let object = || MeasureItem::<Steps>::Object {
        text: "x".to_string(),
        id: 0,
        renderer: Arc::new(()),
        style: Tag(0),
    };
    assert!(text("ab", 1).same_layout_input(&text("ab", 1)));
    assert!(!text("ab", 1).same_layout_input(&text("ac", 1)));
    assert!(!text("ab", 1).same_layout_input(&text("ab", 2)));
    assert!(image(3).same_layout_input(&image(3)));
    assert!(!image(3).same_layout_input(&image(4)));
    assert!(!image(3).same_layout_input(&text("ab", 1)));
    assert!(!object().same_layout_input(&object()));
    assert_eq!(text("中a", 1).len(), 4);
    assert_eq!(image(3).len(), IMAGE_LEN);
    assert_eq!(object().len(), IMAGE_LEN);
}
