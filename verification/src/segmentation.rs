//! Word and grapheme boundaries of a text.

use unicode_segmentation::UnicodeSegmentation;
use vstd::prelude::*;

verus! {

/// The pieces that `split_word_bounds` of the crate `unicode_segmentation`
/// cuts a text into.
pub uninterp spec fn word_pieces(text: Seq<char>) -> Seq<Seq<char>>;

/// The extended grapheme clusters that `graphemes` of the crate
/// `unicode_segmentation` finds in a text.
pub uninterp spec fn grapheme_pieces(text: Seq<char>) -> Seq<Seq<char>>;

/// The characters of each piece of a text.
pub open spec fn piece_views(pieces: Seq<&str>) -> Seq<Seq<char>> {
    pieces.map_values(|piece: &str| piece@)
}

/// Cuts `text` at its word boundaries.
///
/// Calls `UnicodeSegmentation::split_word_bounds`. Taken on trust: the pieces
/// are a function of the text, and one after the other they are the text.
#[verifier::external_body]
pub(crate) fn split_words<'a>(text: &'a str) -> (pieces: Vec<&'a str>)
    ensures
        piece_views(pieces@) == word_pieces(text@),
        piece_views(pieces@).flatten() == text@,
{
    text.split_word_bounds().collect()
}

/// Cuts `text` into its extended grapheme clusters.
///
/// Calls `UnicodeSegmentation::graphemes` for extended clusters. Taken on
/// trust: the clusters are a function of the text, and one after the other
/// they are the text.
#[verifier::external_body]
pub(crate) fn split_graphemes<'a>(text: &'a str) -> (pieces: Vec<&'a str>)
    ensures
        piece_views(pieces@) == grapheme_pieces(text@),
        piece_views(pieces@).flatten() == text@,
{
    text.graphemes(true).collect()
}

} // verus!
