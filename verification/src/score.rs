//! Splitting phrases into the units that are typed.
use vstd::prelude::*;
use crate::unicode::{grapheme_clusters, graphemes, nfc, nfc_of};

verus! {

/// Normalize a phrase to NFC (so composed characters are consistent) and
/// split it into extended grapheme clusters, the best match for what is typed.
/// The clusters are non-empty and concatenate to the normalized phrase.
pub fn graphemes_normalized(s: &str) -> (r: Vec<String>)
    ensures
        r@.map_values(|g: String| g@) == grapheme_clusters(nfc_of(s@)),
        r@.map_values(|g: String| g@).flatten() == nfc_of(s@),
        forall|i: int| 0 <= i < r@.len() ==> (#[trigger] r@[i])@.len() > 0,
{
    let n = nfc(s);
    graphemes(n.as_str())
}

} // verus!
