//! What a flow keeps from one frame to the next.

use std::rc::Rc;
use std::sync::Arc;

use vstd::prelude::*;

use crate::backend::{Backend, InlineFlowTypography, MeasuredInlineObject, WhiteSpace};
use crate::content::flow_len;
use crate::geometry::Size;
use crate::image::{is_image_sizes, measure_images};
use crate::item::{measure_items, measured_views, views, InlineFlowItem, ItemView, MeasureItem};
use crate::kit::Kit;
use crate::layout::{
    is_layout, is_prepared, layout_measured_flow, prepare_objects, InlineFlowLayout,
};
use crate::marks::same_marks;
use crate::number::{is_same_option, same_option, Same};
use crate::wrap::{atoms_measured, flow_on_chars};

verus! {

/// Everything but the wrap width that the layout of a flow depends on.
pub struct FlowLayoutKey<K: Kit> {
    pub items: Vec<MeasureItem<K>>,
    pub image_sizes: Vec<Option<Size<K::Num>>>,
    pub typography: InlineFlowTypography<K>,
}

/// A key in mathematical terms.
pub struct KeyView<K: Kit> {
    pub items: Seq<ItemView<K>>,
    pub image_sizes: Seq<Option<Size<K::Num>>>,
    pub typography: InlineFlowTypography<K>,
}

impl<K: Kit> View for FlowLayoutKey<K> {
    type V = KeyView<K>;

    open spec fn view(&self) -> KeyView<K> {
        KeyView {
            items: views(self.items@),
            image_sizes: self.image_sizes@,
            typography: self.typography,
        }
    }
}

impl<K: Kit> KeyView<K> {
    /// Whether two keys give the same layouts: their items lay out alike one
    /// by one, their images are of the same sizes, and their text is set alike.
    pub open spec fn matches(self, other: Self) -> bool {
        &&& self.items.len() == other.items.len()
        &&& forall|i: int|
            #![trigger self.items[i]]
            #![trigger other.items[i]]
            0 <= i < self.items.len() ==> self.items[i].same_layout_input(other.items[i])
        &&& self.image_sizes.len() == other.image_sizes.len()
        &&& forall|i: int|
            #![trigger self.image_sizes[i]]
            #![trigger other.image_sizes[i]]
            0 <= i < self.image_sizes.len() ==> same_option(
                self.image_sizes[i],
                other.image_sizes[i],
            )
        &&& self.typography.same(other.typography)
    }
}

impl<K: Kit> FlowLayoutKey<K> {
    /// Tells whether two keys give the same layouts.
    pub fn matches(&self, other: &Self) -> (r: bool)
        ensures
            r == self@.matches(other@),
    {
        if self.items.len() != other.items.len() {
            return false;
        }
        for i in 0..self.items.len()
            invariant
                self.items@.len() == other.items@.len(),
                forall|j: int|
                    #![trigger self@.items[j]]
                    #![trigger other@.items[j]]
                    0 <= j < i ==> self@.items[j].same_layout_input(other@.items[j]),
        {
            assert(self@.items[i as int] == self.items@[i as int]@);
            assert(other@.items[i as int] == other.items@[i as int]@);
            if !self.items[i].same_layout_input(&other.items[i]) {
                return false;
            }
        }
        if self.image_sizes.len() != other.image_sizes.len() {
            return false;
        }
        for i in 0..self.image_sizes.len()
            invariant
                self.image_sizes@.len() == other.image_sizes@.len(),
                forall|j: int|
                    #![trigger self@.image_sizes[j]]
                    #![trigger other@.image_sizes[j]]
                    0 <= j < i ==> same_option(self@.image_sizes[j], other@.image_sizes[j]),
        {
            if !is_same_option(&self.image_sizes[i], &other.image_sizes[i]) {
                assert(!same_option(self@.image_sizes[i as int], other@.image_sizes[i as int]));
                return false;
            }
        }
        self.typography.is_same(&other.typography)
    }
}

/// How many wrap widths a flow keeps a layout for.
pub const LAYOUTS_PER_FLOW: usize = 3;

/// What a flow keeps from one frame to the next.
pub struct InlineFlowFrameState<K: Kit> {
    /// One state per text fragment, in the order of the fragments. A fragment
    /// finds what was kept of its text under its state, so it has to be given
    /// the same one in the next frame.
    pub fragment_states: Vec<Arc<K::TextState>>,
    /// What `layouts` were laid out from.
    pub key: Option<FlowLayoutKey<K>>,
    /// The layouts of `key`, one per wrap width that the flow was measured at,
    /// the oldest first.
    pub layouts: Vec<Rc<InlineFlowLayout<K>>>,
}

/// Where the first layout at `wrap_width` stands, counted from `from` on.
pub open spec fn first_at<K: Kit>(
    layouts: Seq<Rc<InlineFlowLayout<K>>>,
    wrap_width: Option<K::Num>,
    from: int,
) -> Option<int>
    decreases layouts.len() - from,
{
    if from < 0 || from >= layouts.len() {
        None
    } else if same_option(layouts[from].wrap_width, wrap_width) {
        Some(from)
    } else {
        first_at(layouts, wrap_width, from + 1)
    }
}

/// `layouts` with one more, in place of the oldest where they would be too
/// many.
pub open spec fn with_layout<K: Kit>(
    layouts: Seq<Rc<InlineFlowLayout<K>>>,
    layout: Rc<InlineFlowLayout<K>>,
) -> Seq<Rc<InlineFlowLayout<K>>> {
    if layouts.len() >= LAYOUTS_PER_FLOW {
        layouts.drop_first().push(layout)
    } else {
        layouts.push(layout)
    }
}

/// The first layout at a width is at that width, and none before it is.
proof fn lemma_first_at<K: Kit>(
    layouts: Seq<Rc<InlineFlowLayout<K>>>,
    wrap_width: Option<K::Num>,
    from: int,
)
    requires
        0 <= from,
    ensures
        match first_at(layouts, wrap_width, from) {
            Some(ix) => from <= ix < layouts.len() && same_option(
                layouts[ix].wrap_width,
                wrap_width,
            ) && forall|i: int|
                #![trigger layouts[i]]
                from <= i < ix ==> !same_option(layouts[i].wrap_width, wrap_width),
            None => forall|i: int|
                #![trigger layouts[i]]
                from <= i < layouts.len() ==> !same_option(layouts[i].wrap_width, wrap_width),
        },
    decreases layouts.len() - from,
{
    if from < layouts.len() && !same_option(layouts[from].wrap_width, wrap_width) {
        lemma_first_at(layouts, wrap_width, from + 1);
    }
}

/// The first layout at `wrap_width`.
pub open spec fn found_in<K: Kit>(
    layouts: Seq<Rc<InlineFlowLayout<K>>>,
    wrap_width: Option<K::Num>,
) -> Option<Rc<InlineFlowLayout<K>>> {
    match first_at(layouts, wrap_width, 0) {
        Some(ix) => Some(layouts[ix]),
        None => None,
    }
}

/// What is kept of the layouts of `current` when `key` takes its place: all
/// of them where the two match, and otherwise none.
pub open spec fn kept_layouts<K: Kit>(
    current: Option<FlowLayoutKey<K>>,
    layouts: Seq<Rc<InlineFlowLayout<K>>>,
    key: KeyView<K>,
) -> Seq<Rc<InlineFlowLayout<K>>> {
    match current {
        Some(current) if current@.matches(key) => layouts,
        _ => Seq::empty(),
    }
}

/// Whether no two layouts are of one wrap width.
pub open spec fn one_per_width<K: Kit>(layouts: Seq<Rc<InlineFlowLayout<K>>>) -> bool {
    forall|i: int, j: int|
        #![trigger layouts[i], layouts[j]]
        0 <= i < j < layouts.len() ==> !same_option(layouts[i].wrap_width, layouts[j].wrap_width)
}

impl<K: Kit> InlineFlowFrameState<K> {
    /// No flow keeps more layouts than it may, nor two of one wrap width, and
    /// none keeps a layout of nothing.
    pub open spec fn well_formed(self) -> bool {
        &&& self.layouts@.len() <= LAYOUTS_PER_FLOW
        &&& one_per_width(self.layouts@)
        &&& self.key is None ==> self.layouts@.len() == 0
    }

    /// The layout kept for `wrap_width`.
    pub open spec fn found(self, wrap_width: Option<K::Num>) -> Option<Rc<InlineFlowLayout<K>>> {
        found_in(self.layouts@, wrap_width)
    }

    /// What a flow starts with: nothing.
    pub fn new() -> (r: Self)
        ensures
            r.well_formed(),
            r.fragment_states@.len() == 0,
            r.key is None,
            r.layouts@.len() == 0,
    {
        InlineFlowFrameState { fragment_states: Vec::new(), key: None, layouts: Vec::new() }
    }

    /// The state of the text fragment of index `fragment_ix`. States that are
    /// there already stay; fresh ones are made up to that index.
    pub fn fragment_state(&mut self, fragment_ix: usize) -> (r: Arc<K::TextState>)
        requires
            fragment_ix < usize::MAX,
        ensures
            r == final(self).fragment_states@[fragment_ix as int],
            final(self).fragment_states@.len() == if old(self).fragment_states@.len()
                <= fragment_ix {
                fragment_ix + 1
            } else {
                old(self).fragment_states@.len() as int
            },
            forall|i: int|
                #![trigger final(self).fragment_states@[i]]
                0 <= i < old(self).fragment_states@.len() ==> final(self).fragment_states@[i]
                    == old(self).fragment_states@[i],
            forall|i: int|
                #![trigger final(self).fragment_states@[i]]
                old(self).fragment_states@.len() <= i < final(self).fragment_states@.len()
                    ==> call_ensures(K::TextState::default, (), *final(self).fragment_states@[i]),
            final(self).key == old(self).key,
            final(self).layouts == old(self).layouts,
    {
        let ghost before = self.fragment_states@;
        while self.fragment_states.len() <= fragment_ix
            invariant
                fragment_ix < usize::MAX,
                before == old(self).fragment_states@,
                before.len() <= self.fragment_states@.len(),
                before.len() <= fragment_ix ==> self.fragment_states@.len() <= fragment_ix + 1,
                before.len() > fragment_ix ==> self.fragment_states@.len() == before.len(),
                forall|i: int|
                    #![trigger self.fragment_states@[i]]
                    0 <= i < before.len() ==> self.fragment_states@[i] == before[i],
                forall|i: int|
                    #![trigger self.fragment_states@[i]]
                    before.len() <= i < self.fragment_states@.len() ==> call_ensures(
                        K::TextState::default,
                        (),
                        *self.fragment_states@[i],
                    ),
                self.key == old(self).key,
                self.layouts == old(self).layouts,
            decreases fragment_ix + 1 - self.fragment_states@.len(),
        {
            let fresh: K::TextState = Default::default();
            self.fragment_states.push(Arc::new(fresh));
        }
        self.fragment_states[fragment_ix].clone()
    }

    /// Makes `key` the current one, dropping the layouts of another key.
    pub fn set_key(&mut self, key: FlowLayoutKey<K>)
        ensures
            final(self).key == Some(key),
            final(self).layouts@ == kept_layouts(old(self).key, old(self).layouts@, key@),
            final(self).fragment_states == old(self).fragment_states,
            old(self).well_formed() ==> final(self).well_formed(),
    {
        let keeps: bool = match &self.key {
            Some(current) => current.matches(&key),
            None => false,
        };
        if !keeps {
            self.layouts.clear();
        }
        self.key = Some(key);
    }

    /// The layout at `wrap_width`, if the key was laid out there already.
    pub fn layout_at(&self, wrap_width: Option<K::Num>) -> (r: Option<Rc<InlineFlowLayout<K>>>)
        ensures
            r == self.found(wrap_width),
    {
        let mut ix: usize = 0;
        while ix < self.layouts.len()
            invariant
                ix <= self.layouts@.len(),
                first_at(self.layouts@, wrap_width, 0) == first_at(
                    self.layouts@,
                    wrap_width,
                    ix as int,
                ),
            decreases self.layouts@.len() - ix,
        {
            if is_same_option(&self.layouts[ix].wrap_width, &wrap_width) {
                return Some(self.layouts[ix].clone());
            }
            ix = ix + 1;
        }
        None
    }

    /// Keeps `layout`, in place of the oldest one when the flow has been
    /// measured at more widths than it keeps.
    pub fn push_layout(&mut self, layout: Rc<InlineFlowLayout<K>>)
        ensures
            final(self).layouts@ == with_layout(old(self).layouts@, layout),
            final(self).key == old(self).key,
            final(self).fragment_states == old(self).fragment_states,
            old(self).well_formed() && old(self).key is Some && old(self).found(
                layout.wrap_width,
            ) is None ==> final(self).well_formed(),
    {
        proof {
            if self.found(layout.wrap_width) is None {
                lemma_first_at(self.layouts@, layout.wrap_width, 0);
            }
        }
        if self.layouts.len() >= LAYOUTS_PER_FLOW {
            let _oldest = self.layouts.remove(0);
        }
        self.layouts.push(layout);
        assert(self.layouts@ =~= with_layout(old(self).layouts@, layout));
    }
}

/// The space that a flow is measured for.
#[derive(Clone, Copy, Debug)]
pub enum AvailableSpace<N> {
    Definite(N),
    MinContent,
    MaxContent,
}

/// The width that a flow wraps at: the one it is known to have, or the one
/// there is room for; none where its text does not wrap.
pub open spec fn wrap_width_of<N>(
    white_space: WhiteSpace,
    known_width: Option<N>,
    available_width: AvailableSpace<N>,
) -> Option<N> {
    if white_space == WhiteSpace::Normal {
        match (known_width, available_width) {
            (Some(width), _) => Some(width),
            (None, AvailableSpace::Definite(width)) => Some(width),
            _ => None,
        }
    } else {
        None
    }
}

/// The width that a flow wraps at.
pub fn flow_wrap_width<N: Copy>(
    white_space: WhiteSpace,
    known_width: Option<N>,
    available_width: AvailableSpace<N>,
) -> (r: Option<N>)
    ensures
        r == wrap_width_of(white_space, known_width, available_width),
{
    if white_space == WhiteSpace::Normal {
        match known_width {
            Some(width) => Some(width),
            None => match available_width {
                AvailableSpace::Definite(width) => Some(width),
                AvailableSpace::MinContent | AvailableSpace::MaxContent => None,
            },
        }
    } else {
        None
    }
}

/// Whether `key` is what a flow of the given items is laid out from.
pub open spec fn is_key<K: Kit, B: Backend<K>>(
    backend: &B,
    typography: InlineFlowTypography<K>,
    items: Seq<ItemView<K>>,
    key: KeyView<K>,
) -> bool {
    &&& key.items == items
    &&& is_image_sizes(backend, &typography, items, key.image_sizes)
    &&& key.typography == typography
}

/// Measures the images of a flow and draws its objects: what the flow is laid
/// out from in this frame, and the objects.
pub fn prepare_frame<K: Kit, B: Backend<K>>(
    items: &[InlineFlowItem<K>],
    typography: &InlineFlowTypography<K>,
    backend: &B,
) -> (r: (FlowLayoutKey<K>, Vec<Option<MeasuredInlineObject<K>>>))
    ensures
        is_key(backend, *typography, measured_views(items@), r.0@),
        is_prepared(backend, typography, measured_views(items@), r.1@),
{
    let measured = measure_items(items);
    let image_sizes = measure_images(measured.as_slice(), typography, backend);
    let objects = prepare_objects(measured.as_slice(), typography, backend);
    let key = FlowLayoutKey { items: measured, image_sizes, typography: typography.copied() };
    (key, objects)
}

/// Starts a frame of a flow: measures its images, draws its objects, and
/// keeps the layouts of the frame before only where nothing they depend on has
/// changed.
pub fn request_layout<K: Kit, B: Backend<K>>(
    items: &[InlineFlowItem<K>],
    typography: &InlineFlowTypography<K>,
    frame_state: &mut InlineFlowFrameState<K>,
    backend: &B,
) -> (r: Vec<Option<MeasuredInlineObject<K>>>)
    ensures
        is_prepared(backend, typography, measured_views(items@), r@),
        final(frame_state).key matches Some(key) && is_key(
            backend,
            *typography,
            measured_views(items@),
            key@,
        ),
        final(frame_state).layouts@ == kept_layouts(
            old(frame_state).key,
            old(frame_state).layouts@,
            final(frame_state).key->0@,
        ),
        final(frame_state).fragment_states == old(frame_state).fragment_states,
        old(frame_state).well_formed() ==> final(frame_state).well_formed(),
{
    let (key, objects) = prepare_frame(items, typography, backend);
    frame_state.set_key(key);
    objects
}

/// Measures a flow for the space there is: gives back the layout kept for its
/// wrap width, or lays the flow out and keeps that layout. The typography is
/// the one that the flow was requested with; where two flows share a state,
/// the key may be of the other one.
pub fn measure_flow<K: Kit, B: Backend<K>>(
    frame_state: &mut InlineFlowFrameState<K>,
    objects: &[Option<MeasuredInlineObject<K>>],
    typography: &InlineFlowTypography<K>,
    known_width: Option<K::Num>,
    available_width: AvailableSpace<K::Num>,
    backend: &B,
) -> (r: Rc<InlineFlowLayout<K>>)
    requires
        ({
            let wrap_width = wrap_width_of(typography.white_space, known_width, available_width);
            old(frame_state).found(wrap_width) is None ==> {
                &&& old(frame_state).key matches Some(key)
                &&& flow_len(key@.items) <= usize::MAX
                &&& atoms_measured(key@.items, key@.image_sizes, objects@)
                &&& wrap_width is Some ==> flow_on_chars(key@.items)
            }
        }),
    ensures
        ({
            let key = old(frame_state).key->0@;
            let wrap_width = wrap_width_of(typography.white_space, known_width, available_width);
            match old(frame_state).found(wrap_width) {
                Some(layout) => r == layout && *final(frame_state) == *old(frame_state),
                None => is_layout(
                    backend,
                    typography,
                    key.items,
                    key.image_sizes,
                    objects@,
                    wrap_width,
                    r@,
                ) && final(frame_state).layouts@ == with_layout(old(frame_state).layouts@, r)
                    && final(frame_state).key == old(frame_state).key
                    && final(frame_state).fragment_states == old(frame_state).fragment_states,
            }
        }),
        old(frame_state).well_formed() ==> final(frame_state).well_formed(),
{
    let wrap_width: Option<K::Num> = flow_wrap_width(
        typography.white_space,
        known_width,
        available_width,
    );
    if let Some(layout) = frame_state.layout_at(wrap_width) {
        return layout;
    }
    let key = frame_state.key.as_ref().unwrap();
    let layout = Rc::new(
        layout_measured_flow(
            key.items.as_slice(),
            key.image_sizes.as_slice(),
            objects,
            typography,
            wrap_width,
            backend,
        ),
    );
    frame_state.push_layout(layout.clone());
    layout
}

/// Whether every value counts as the same as itself, as a float that is no
/// number would not.
pub open spec fn settled<T: Same>() -> bool {
    forall|value: T| #[trigger] value.same(value)
}

/// A flow that did not change is recognised: its key matches itself, unless
/// there is an object in it.
pub proof fn law_unchanged_flow_matches<K: Kit>(key: KeyView<K>)
    requires
        settled::<K::Num>(),
        settled::<K::Style>(),
        settled::<K::Color>(),
        settled::<K::Family>(),
        settled::<K::Link>(),
        settled::<K::TextStyle>(),
        forall|i: int| 0 <= i < key.items.len() ==> !(#[trigger] key.items[i] is Object),
    ensures
        key.matches(key),
{
    assert forall|i: int| #![trigger key.items[i]] 0 <= i < key.items.len() implies key.items[i].same_layout_input(
        key.items[i],
    ) by {
        match key.items[i] {
            ItemView::Text { links, highlights, .. } => {
                assert(same_marks(links, links));
                assert forall|j: int| #![trigger highlights[j]] 0 <= j < highlights.len() implies (
                highlights[j].1.same(highlights[j].1)) by {
                    let highlight = highlights[j].1;
                    assert(highlight.style.same(highlight.style));
                    assert(same_option(highlight.background_color, highlight.background_color));
                    assert(same_option(highlight.font_family, highlight.font_family));
                    assert(same_option(highlight.font_size_scale, highlight.font_size_scale));
                }
                assert(same_marks(highlights, highlights));
            },
            ItemView::Image { width, height, .. } => {
                assert(same_option(width, width));
                assert(same_option(height, height));
            },
            ItemView::Object { .. } => {},
        }
    }
    assert forall|i: int|
        #![trigger key.image_sizes[i]]
        0 <= i < key.image_sizes.len() implies same_option(
        key.image_sizes[i],
        key.image_sizes[i],
    ) by {}
    assert(key.typography.same(key.typography));
}

/// Whether two values count as the same in either order.
pub open spec fn symmetric<T: Same>() -> bool {
    forall|a: T, b: T| #[trigger] a.same(b) ==> b.same(a)
}

/// Two flows match in either order.
pub proof fn law_matching_is_symmetric<K: Kit>(a: KeyView<K>, b: KeyView<K>)
    requires
        symmetric::<K::Num>(),
        symmetric::<K::Style>(),
        symmetric::<K::Color>(),
        symmetric::<K::Family>(),
        symmetric::<K::Link>(),
        symmetric::<K::TextStyle>(),
    ensures
        a.matches(b) == b.matches(a),
{
    if a.matches(b) {
        lemma_matches_back(a, b);
    }
    if b.matches(a) {
        lemma_matches_back(b, a);
    }
}

proof fn lemma_matches_back<K: Kit>(a: KeyView<K>, b: KeyView<K>)
    requires
        symmetric::<K::Num>(),
        symmetric::<K::Style>(),
        symmetric::<K::Color>(),
        symmetric::<K::Family>(),
        symmetric::<K::Link>(),
        symmetric::<K::TextStyle>(),
        a.matches(b),
    ensures
        b.matches(a),
{
    assert forall|i: int| #![trigger b.items[i]] 0 <= i < b.items.len() implies b.items[i].same_layout_input(
        a.items[i],
    ) by {
        assert(a.items[i].same_layout_input(b.items[i]));
        match (a.items[i], b.items[i]) {
            (
                ItemView::Text { links, highlights, .. },
                ItemView::Text { links: other_links, highlights: other_highlights, .. },
            ) => {
                assert forall|j: int| #![trigger links[j]] 0 <= j < links.len() implies (
                other_links[j].1.same(links[j].1)) by {
                    assert((*links[j].1).same(*other_links[j].1));
                }
                assert(same_marks(other_links, links));
                assert forall|j: int|
                    #![trigger highlights[j]]
                    0 <= j < highlights.len() implies other_highlights[j].1.same(
                    highlights[j].1,
                ) by {
                    let (x, y) = (highlights[j].1, other_highlights[j].1);
                    assert(x.same(y));
                    assert(x.style.same(y.style));
                    assert(same_option(y.background_color, x.background_color));
                    assert(same_option(y.font_family, x.font_family));
                    assert(same_option(y.font_size_scale, x.font_size_scale));
                }
                assert(same_marks(other_highlights, highlights));
            },
            _ => {},
        }
    }
    assert forall|i: int|
        #![trigger b.image_sizes[i]]
        0 <= i < b.image_sizes.len() implies same_option(b.image_sizes[i], a.image_sizes[i]) by {
        assert(same_option(a.image_sizes[i], b.image_sizes[i]));
    }
    assert((*a.typography.text_style).same(*b.typography.text_style));
    assert(b.typography.same(a.typography));
}

/// A flow that is measured at a width once is not laid out again there: the
/// layout is found from then on.
pub proof fn law_measured_width_is_found<K: Kit>(
    layouts: Seq<Rc<InlineFlowLayout<K>>>,
    layout: Rc<InlineFlowLayout<K>>,
)
    requires
        found_in(layouts, layout.wrap_width) is None,
        same_option(layout.wrap_width, layout.wrap_width),
    ensures
        found_in(with_layout(layouts, layout), layout.wrap_width) == Some(layout),
{
    let after = with_layout(layouts, layout);
    lemma_first_at(layouts, layout.wrap_width, 0);
    lemma_first_at(after, layout.wrap_width, 0);
    assert forall|i: int| #![trigger after[i]] 0 <= i < after.len() - 1 implies !same_option(
        after[i].wrap_width,
        layout.wrap_width,
    ) by {
        let from = if layouts.len() >= LAYOUTS_PER_FLOW {
            i + 1
        } else {
            i
        };
        assert(after[i] == layouts[from]);
    }
    assert(after[after.len() - 1] == layout);
}

/// A frame that changes nothing finds every width of the frame before, and so
/// lays nothing out.
pub proof fn law_unchanged_frame_finds_its_layouts<K: Kit>(
    current: FlowLayoutKey<K>,
    layouts: Seq<Rc<InlineFlowLayout<K>>>,
    key: KeyView<K>,
    wrap_width: Option<K::Num>,
)
    requires
        current@.matches(key),
    ensures
        found_in(kept_layouts(Some(current), layouts, key), wrap_width) == found_in(
            layouts,
            wrap_width,
        ),
{
}

/// An unchanged flow is not laid out again: what a frame laid out at a width is
/// what the next frame of a matching flow finds there.
pub proof fn law_unchanged_flow_is_not_laid_out_again<K: Kit>(
    current: FlowLayoutKey<K>,
    layouts: Seq<Rc<InlineFlowLayout<K>>>,
    layout: Rc<InlineFlowLayout<K>>,
    key: KeyView<K>,
)
    requires
        found_in(layouts, layout.wrap_width) is None,
        same_option(layout.wrap_width, layout.wrap_width),
        current@.matches(key),
    ensures
        found_in(
            kept_layouts(Some(current), with_layout(layouts, layout), key),
            layout.wrap_width,
        ) == Some(layout),
{
    law_measured_width_is_found(layouts, layout);
}

/// A frame that changes nothing finds every layout that is kept, each at its
/// width.
pub proof fn law_unchanged_frame_finds_every_width<K: Kit>(
    current: FlowLayoutKey<K>,
    layouts: Seq<Rc<InlineFlowLayout<K>>>,
    key: KeyView<K>,
    i: int,
)
    requires
        one_per_width(layouts),
        current@.matches(key),
        0 <= i < layouts.len(),
        same_option(layouts[i].wrap_width, layouts[i].wrap_width),
    ensures
        found_in(kept_layouts(Some(current), layouts, key), layouts[i].wrap_width) == Some(
            layouts[i],
        ),
{
    lemma_first_at(layouts, layouts[i].wrap_width, 0);
}

/// A frame of other items, images or typography starts over: no layout of the
/// frame before is found.
pub proof fn law_changed_frame_starts_over<K: Kit>(
    current: FlowLayoutKey<K>,
    layouts: Seq<Rc<InlineFlowLayout<K>>>,
    key: KeyView<K>,
    wrap_width: Option<K::Num>,
)
    requires
        !current@.matches(key),
    ensures
        found_in(kept_layouts(Some(current), layouts, key), wrap_width) is None,
{
}

/// A flow in which a text changed does not match the one before.
pub proof fn law_changed_text_does_not_match<K: Kit>(a: KeyView<K>, b: KeyView<K>, i: int)
    requires
        0 <= i < a.items.len(),
        a.items.len() == b.items.len(),
        a.items[i] matches ItemView::Text { text, .. } && (b.items[i] matches ItemView::Text {
            text: other,
            ..
        } ==> text != other),
    ensures
        !a.matches(b),
{
    assert(!a.items[i].same_layout_input(b.items[i]));
}

/// A flow with an object is never reused: it does not even match itself.
pub proof fn law_object_never_matches<K: Kit>(a: KeyView<K>, b: KeyView<K>, i: int)
    requires
        0 <= i < a.items.len(),
        a.items[i] is Object || (i < b.items.len() && b.items[i] is Object),
    ensures
        !a.matches(b),
{
    if a.items.len() == b.items.len() {
        assert(!a.items[i].same_layout_input(b.items[i]));
    }
}

/// A layout is found only for the wrap width that it was made for, and one
/// that is kept for a width is found.
pub proof fn law_found_at_its_width<K: Kit>(
    layouts: Seq<Rc<InlineFlowLayout<K>>>,
    wrap_width: Option<K::Num>,
)
    ensures
        found_in(layouts, wrap_width) matches Some(layout) ==> layouts.contains(layout)
            && same_option(layout.wrap_width, wrap_width),
        found_in(layouts, wrap_width) is None ==> forall|i: int|
            #![trigger layouts[i]]
            0 <= i < layouts.len() ==> !same_option(layouts[i].wrap_width, wrap_width),
{
    lemma_first_at(layouts, wrap_width, 0);
    if let Some(ix) = first_at(layouts, wrap_width, 0) {
        assert(layouts[ix] == found_in(layouts, wrap_width)->0);
    }
}

/// Keeping one more layout drops at most the oldest: any other that is found
/// is still found.
pub proof fn law_only_the_oldest_goes<K: Kit>(
    layouts: Seq<Rc<InlineFlowLayout<K>>>,
    layout: Rc<InlineFlowLayout<K>>,
    wrap_width: Option<K::Num>,
)
    requires
        first_at(layouts, wrap_width, 0) matches Some(ix) && (ix > 0 || layouts.len()
            < LAYOUTS_PER_FLOW),
    ensures
        found_in(with_layout(layouts, layout), wrap_width) == found_in(layouts, wrap_width),
{
    let after = with_layout(layouts, layout);
    lemma_first_at(layouts, wrap_width, 0);
    lemma_first_at(after, wrap_width, 0);
    let ix = first_at(layouts, wrap_width, 0)->0;
    let by = if layouts.len() >= LAYOUTS_PER_FLOW {
        1int
    } else {
        0int
    };
    assert(after[ix - by] == layouts[ix]);
    assert forall|i: int| #![trigger after[i]] 0 <= i < ix - by implies !same_option(
        after[i].wrap_width,
        wrap_width,
    ) by {
        assert(after[i] == layouts[i + by]);
    }
}

} // verus!
