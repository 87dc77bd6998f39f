//! When the layouts of a frame serve the next one.

use std::rc::Rc;

use vstd::prelude::*;

use crate::backend::{Backend, InlineFlowTypography, WhiteSpace};
use crate::frame::{
    found_in, is_key, kept_layouts, law_unchanged_flow_matches, settled, wrap_width_of,
    AvailableSpace, FlowLayoutKey, KeyView,
};
use crate::geometry::{AbsoluteLength, DefiniteLength, Size};
use crate::image::is_measured_image;
use crate::item::{measured_views, InlineFlowItem, ItemView};
use crate::kit::Kit;
use crate::layout::InlineFlowLayout;
use crate::marks::{same_marks, InlineHighlight};
use crate::number::{same_option, Fixed, Number, Same};

verus! {

/// Whether two values that count as the same one are equal.
pub open spec fn exact<T: Same>() -> bool {
    forall|a: T, b: T| #[trigger] a.same(b) ==> a == b
}

/// Two highlights count as the same one only where all that they set does:
/// style, background, family and size.
pub proof fn law_same_highlights_set_the_same<K: Kit>(a: InlineHighlight<K>, b: InlineHighlight<K>)
    requires
        a.same(b),
    ensures
        a.style.same(b.style),
        a.background_color is Some <==> b.background_color is Some,
        a.background_color is Some ==> a.background_color->0.same(b.background_color->0),
        a.font_family is Some <==> b.font_family is Some,
        a.font_family is Some ==> (*a.font_family->0).same(*b.font_family->0),
        a.font_size_scale is Some <==> b.font_size_scale is Some,
        a.font_size_scale is Some ==> a.font_size_scale->0.same(b.font_size_scale->0),
{
    assert(same_option(a.background_color, b.background_color));
    assert(same_option(a.font_family, b.font_family));
    assert(same_option(a.font_size_scale, b.font_size_scale));
}

/// Two flows match only where each text of the one has the characters of the
/// text at its place in the other, and as many links and highlights, each on
/// the same range and the same by itself.
pub proof fn law_matching_texts_are_marked_alike<K: Kit>(
    a: KeyView<K>,
    b: KeyView<K>,
    i: int,
    j: int,
)
    requires
        a.matches(b),
        0 <= i < a.items.len(),
        a.items[i] is Text,
    ensures
        a.items.len() == b.items.len(),
        b.items[i] is Text,
        a.items[i]->Text_text == b.items[i]->Text_text,
        a.items[i]->links.len() == b.items[i]->links.len(),
        a.items[i]->highlights.len() == b.items[i]->highlights.len(),
        0 <= j < a.items[i]->links.len() ==> {
            let (x, y) = (a.items[i]->links[j], b.items[i]->links[j]);
            &&& x.0.start == y.0.start && x.0.end == y.0.end
            &&& (*x.1).same(*y.1)
        },
        0 <= j < a.items[i]->highlights.len() ==> {
            let (x, y) = (a.items[i]->highlights[j], b.items[i]->highlights[j]);
            &&& x.0.start == y.0.start && x.0.end == y.0.end
            &&& x.1.style.same(y.1.style)
            &&& x.1.background_color is Some <==> y.1.background_color is Some
            &&& x.1.background_color is Some ==> x.1.background_color->0.same(
                y.1.background_color->0,
            )
            &&& x.1.font_family is Some <==> y.1.font_family is Some
            &&& x.1.font_family is Some ==> (*x.1.font_family->0).same(*y.1.font_family->0)
            &&& x.1.font_size_scale is Some <==> y.1.font_size_scale is Some
            &&& x.1.font_size_scale is Some ==> x.1.font_size_scale->0.same(
                y.1.font_size_scale->0,
            )
        },
{
    assert(a.items[i].same_layout_input(b.items[i]));
    let (links, others) = (a.items[i]->links, b.items[i]->links);
    let (marks, marked) = (a.items[i]->highlights, b.items[i]->highlights);
    if 0 <= j < links.len() {
        assert(links[j].0 == others[j].0 && links[j].1.same(others[j].1));
    }
    if 0 <= j < marks.len() {
        assert(marks[j].0 == marked[j].0 && marks[j].1.same(marked[j].1));
        law_same_highlights_set_the_same(marks[j].1, marked[j].1);
    }
}

/// Two lengths count as the same one only where they are in the same unit and
/// their numbers are the same.
pub proof fn law_same_lengths_are_in_one_unit<N: Number>(a: DefiniteLength<N>, b: DefiniteLength<N>)
    ensures
        a.same(b) <==> {
            match a {
                DefiniteLength::Absolute(AbsoluteLength::Pixels(x)) => b
                    matches DefiniteLength::Absolute(AbsoluteLength::Pixels(y)) && x.same(y),
                DefiniteLength::Absolute(AbsoluteLength::Rems(x)) => b
                    matches DefiniteLength::Absolute(AbsoluteLength::Rems(y)) && x.same(y),
                DefiniteLength::Fraction(x) => b matches DefiniteLength::Fraction(y) && x.same(y),
            }
        },
{
}

/// Two flows match only where their images stand at the same places, with the
/// same sides given and of the same sizes.
pub proof fn law_matching_images_are_sized_alike<K: Kit>(a: KeyView<K>, b: KeyView<K>, i: int)
    requires
        a.matches(b),
    ensures
        0 <= i < a.items.len() && a.items[i] is Image ==> {
            let (x, y) = (a.items[i], b.items[i]);
            &&& y is Image
            &&& x->width is Some <==> y->width is Some
            &&& x->width is Some ==> x->width->0.same(y->width->0)
            &&& x->height is Some <==> y->height is Some
            &&& x->height is Some ==> x->height->0.same(y->height->0)
        },
        a.image_sizes.len() == b.image_sizes.len(),
        0 <= i < a.image_sizes.len() ==> {
            let (x, y) = (a.image_sizes[i], b.image_sizes[i]);
            &&& x is Some <==> y is Some
            &&& x is Some ==> x->0.width.same(y->0.width) && x->0.height.same(y->0.height)
        },
{
    if 0 <= i < a.items.len() {
        assert(a.items[i].same_layout_input(b.items[i]));
    }
    if 0 <= i < a.image_sizes.len() {
        assert(same_option(a.image_sizes[i], b.image_sizes[i]));
    }
}

/// Two flows match only where their text is set alike: in the same style, of
/// the same size, in lines of the same height, wrapping or not.
pub proof fn law_matching_flows_are_set_alike<K: Kit>(a: KeyView<K>, b: KeyView<K>)
    requires
        a.matches(b),
    ensures
        (*a.typography.text_style).same(*b.typography.text_style),
        match a.typography.font_size {
            AbsoluteLength::Pixels(x) => b.typography.font_size matches AbsoluteLength::Pixels(y)
                && x.same(y),
            AbsoluteLength::Rems(x) => b.typography.font_size matches AbsoluteLength::Rems(y)
                && x.same(y),
        },
        a.typography.white_space == b.typography.white_space,
        a.typography.rem_size.same(b.typography.rem_size),
        a.typography.line_height.same(b.typography.line_height),
{
}

proof fn lemma_exact_marks<T: Same>(
    a: Seq<(std::ops::Range<usize>, T)>,
    b: Seq<(std::ops::Range<usize>, T)>,
)
    requires
        exact::<T>(),
        same_marks(a, b),
    ensures
        a == b,
{
    assert forall|i: int| 0 <= i < a.len() implies a[i] == b[i] by {
        assert(a[i].1.same(b[i].1));
    }
    assert(a =~= b);
}

/// Highlights that count as the same one are equal where what they hold is.
pub proof fn law_same_highlights_are_equal<K: Kit>()
    requires
        exact::<K::Num>(),
        exact::<K::Style>(),
        exact::<K::Color>(),
        exact::<K::Family>(),
    ensures
        exact::<InlineHighlight<K>>(),
{
    assert forall|a: InlineHighlight<K>, b: InlineHighlight<K>| #[trigger] a.same(b) implies a
        == b by {
        law_same_highlights_set_the_same(a, b);
    }
}

/// Where values that count as the same one are equal, two flows match only if
/// nothing that their layouts depend on differs: equal texts with equal marks,
/// images of equal sides and sizes, in equal typography. Only where an image
/// comes from may differ.
pub proof fn law_matching_flows_lay_out_alike<K: Kit>(a: KeyView<K>, b: KeyView<K>, i: int)
    requires
        exact::<K::Num>(),
        exact::<K::Style>(),
        exact::<K::Color>(),
        exact::<K::Family>(),
        exact::<K::Link>(),
        exact::<K::TextStyle>(),
        a.matches(b),
    ensures
        a.items.len() == b.items.len(),
        0 <= i < a.items.len() ==> match a.items[i] {
            ItemView::Text { .. } => a.items[i] == b.items[i],
            ItemView::Image { width, height, .. } => b.items[i] is Image && width
                == b.items[i]->width && height == b.items[i]->height,
            ItemView::Object { .. } => false,
        },
        a.image_sizes == b.image_sizes,
        a.typography == b.typography,
{
    if 0 <= i < a.items.len() {
        assert(a.items[i].same_layout_input(b.items[i]));
        if a.items[i] is Text {
            assert(exact::<std::sync::Arc<K::Link>>()) by {
                assert forall|x: std::sync::Arc<K::Link>, y: std::sync::Arc<K::Link>| #[trigger]
                    x.same(y) implies x == y by {
                    assert((*x).same(*y));
                }
            }
            law_same_highlights_are_equal::<K>();
            lemma_exact_marks(a.items[i]->links, b.items[i]->links);
            lemma_exact_marks(a.items[i]->highlights, b.items[i]->highlights);
        } else {
            law_matching_images_are_sized_alike(a, b, i);
        }
    }
    law_matching_flows_are_set_alike(a, b);
    assert forall|k: int| 0 <= k < a.image_sizes.len() implies a.image_sizes[k]
        == b.image_sizes[k] by {
        law_matching_images_are_sized_alike(a, b, k);
    }
    assert(a.image_sizes =~= b.image_sizes);
}

/// A frame in which a highlight changed starts over: where the highlight at a
/// place has another range, style, background, family or size than the one
/// there in the frame before, or a text has more or fewer links or highlights,
/// no layout of the frame before is found.
pub proof fn law_changed_marks_start_over<K: Kit>(
    current: FlowLayoutKey<K>,
    layouts: Seq<Rc<InlineFlowLayout<K>>>,
    key: KeyView<K>,
    wrap_width: Option<K::Num>,
    i: int,
    j: int,
)
    requires
        0 <= i < current@.items.len(),
        i < key.items.len(),
        current@.items[i] is Text,
        key.items[i] is Text,
        ({
            let (x, y) = (current@.items[i]->highlights, key.items[i]->highlights);
            ||| x.len() != y.len()
            ||| current@.items[i]->links.len() != key.items[i]->links.len()
            ||| 0 <= j < x.len() && j < y.len() && {
                ||| x[j].0 != y[j].0
                ||| !x[j].1.style.same(y[j].1.style)
                ||| (x[j].1.background_color is Some) != (y[j].1.background_color is Some)
                ||| x[j].1.background_color is Some && !x[j].1.background_color->0.same(
                    y[j].1.background_color->0,
                )
                ||| (x[j].1.font_family is Some) != (y[j].1.font_family is Some)
                ||| x[j].1.font_family is Some && !(*x[j].1.font_family->0).same(
                    *y[j].1.font_family->0,
                )
                ||| (x[j].1.font_size_scale is Some) != (y[j].1.font_size_scale is Some)
                ||| x[j].1.font_size_scale is Some && !x[j].1.font_size_scale->0.same(
                    y[j].1.font_size_scale->0,
                )
            }
            ||| 0 <= j < current@.items[i]->links.len() && j < key.items[i]->links.len() && {
                let (x, y) = (current@.items[i]->links[j], key.items[i]->links[j]);
                x.0 != y.0 || !(*x.1).same(*y.1)
            }
        }),
    ensures
        !current@.matches(key),
        found_in(kept_layouts(Some(current), layouts, key), wrap_width) is None,
{
    if current@.matches(key) {
        law_matching_texts_are_marked_alike(current@, key, i, j);
    }
}

/// A frame in which an image, its size or the typography changed starts over.
pub proof fn law_changed_measures_start_over<K: Kit>(
    current: FlowLayoutKey<K>,
    layouts: Seq<Rc<InlineFlowLayout<K>>>,
    key: KeyView<K>,
    wrap_width: Option<K::Num>,
    i: int,
)
    requires
        ({
            let (x, y) = (current@.typography, key.typography);
            ||| !(*x.text_style).same(*y.text_style)
            ||| x.white_space != y.white_space
            ||| !x.rem_size.same(y.rem_size)
            ||| !x.line_height.same(y.line_height)
            ||| (x.font_size is Rems) != (y.font_size is Rems)
            ||| 0 <= i < current@.image_sizes.len() && i < key.image_sizes.len() && {
                let (x, y) = (current@.image_sizes[i], key.image_sizes[i]);
                ||| (x is Some) != (y is Some)
                ||| x is Some && !(x->0.width.same(y->0.width) && x->0.height.same(y->0.height))
            }
        }),
    ensures
        !current@.matches(key),
        found_in(kept_layouts(Some(current), layouts, key), wrap_width) is None,
{
    if current@.matches(key) {
        law_matching_flows_are_set_alike(current@, key);
        law_matching_images_are_sized_alike(current@, key, i);
    }
}

/// Asking twice for a flow without objects gives matching keys where the
/// window answers alike about its images: the second frame keeps what the
/// first laid out.
pub proof fn law_same_request_keeps_the_layouts<K: Kit, B: Backend<K>>(
    backend: &B,
    next: &B,
    typography: InlineFlowTypography<K>,
    items: Seq<InlineFlowItem<K>>,
    current: FlowLayoutKey<K>,
    key: KeyView<K>,
    layouts: Seq<Rc<InlineFlowLayout<K>>>,
)
    requires
        settled::<K::Num>(),
        settled::<K::Style>(),
        settled::<K::Color>(),
        settled::<K::Family>(),
        settled::<K::Link>(),
        settled::<K::TextStyle>(),
        forall|i: int| 0 <= i < items.len() ==> !(#[trigger] items[i] is Object),
        is_key(backend, typography, measured_views(items), current@),
        is_key(next, typography, measured_views(items), key),
        forall|i: int, x: Size<K::Num>, y: Size<K::Num>|
            #![trigger measured_views(items)[i], x.same(y)]
            0 <= i < items.len() ==> (measured_views(items)[i] matches ItemView::Image {
                source,
                width,
                height,
            } ==> is_measured_image(
                backend,
                &typography,
                i as usize,
                &source,
                width,
                height,
                x,
            ) && is_measured_image(next, &typography, i as usize, &source, width, height, y) ==> x
                == y),
    ensures
        current@.matches(key),
        kept_layouts(Some(current), layouts, key) == layouts,
{
    let all = measured_views(items);
    assert forall|i: int| 0 <= i < all.len() implies current@.image_sizes[i]
        == key.image_sizes[i] by {
        let (x, y) = (current@.image_sizes[i], key.image_sizes[i]);
        assert(all[i] == items[i].measured());
        if all[i] is Image {
            assert(x is Some && y is Some);
            let _alike = x->0.same(y->0);
        }
    }
    assert(current@.image_sizes =~= key.image_sizes);
    assert forall|i: int| 0 <= i < key.items.len() implies !(#[trigger] key.items[i] is Object) by {
        assert(items[i].measured() == all[i]);
        assert(!(items[i] is Object));
    }
    law_unchanged_flow_matches(key);
}

/// Text that does not wrap has no wrap width; a width that is known comes
/// before the space there is; and without either, nothing wraps.
pub proof fn law_known_width_comes_first<N>(
    known_width: Option<N>,
    available_width: AvailableSpace<N>,
    other_available_width: AvailableSpace<N>,
    width: N,
)
    ensures
        wrap_width_of(WhiteSpace::Nowrap, known_width, available_width) is None,
        wrap_width_of(WhiteSpace::Normal, Some(width), available_width) == wrap_width_of(
            WhiteSpace::Normal,
            Some(width),
            other_available_width,
        ),
        wrap_width_of(WhiteSpace::Normal, Some(width), available_width) == wrap_width_of(
            WhiteSpace::Normal,
            None,
            AvailableSpace::Definite(width),
        ),
        wrap_width_of(WhiteSpace::Normal, Some(width), available_width) == Some(width),
        wrap_width_of(WhiteSpace::Normal, None::<N>, AvailableSpace::MinContent) is None,
        wrap_width_of(WhiteSpace::Normal, None::<N>, AvailableSpace::MaxContent) is None,
{
}

/// A flow that has no key yet finds nothing.
pub proof fn law_first_frame_finds_nothing<K: Kit>(
    layouts: Seq<Rc<InlineFlowLayout<K>>>,
    key: KeyView<K>,
    wrap_width: Option<K::Num>,
)
    ensures
        found_in(kept_layouts(None, layouts, key), wrap_width) is None,
{
}

/// Fixed-point numbers that count as the same one are equal.
pub proof fn law_same_fixed_is_equal()
    ensures
        exact::<Fixed>(),
        settled::<Fixed>(),
{
}

} // verus!
