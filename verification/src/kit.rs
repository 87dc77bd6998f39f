//! What a flow carries without looking inside.

use vstd::prelude::*;

use crate::number::{Number, Same};

verus! {

/// The number that a flow is measured in and the types of the values that it
/// hands from its items to its fragments.
pub trait Kit: Sized {
    /// Lengths and factors.
    type Num: Number;

    /// What a highlight sets besides its background, its family and its size.
    type Style: Same + Copy;

    /// The color of a background.
    type Color: Same + Copy;

    /// A font family.
    type Family: Same;

    /// Where a link leads.
    type Link: Same;

    /// What text is set in besides its size and its wrapping.
    type TextStyle: Same;

    /// What draws an atomic object.
    type Renderer;

    /// A drawn object.
    type Object;

    /// Whether an atomic object is selected.
    type Selected;

    /// Where an image comes from.
    type Source;

    /// What a text keeps from one frame to the next.
    type TextState: Default;
}

} // verus!
