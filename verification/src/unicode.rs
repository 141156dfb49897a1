//! Unicode normalization, grapheme segmentation and case mapping.
//!
//! These are computed by the `unicode-normalization` and
//! `unicode-segmentation` crates and by `char`'s case mapping in std; each
//! result is named by a spec function of the input alone (the Unicode tables
//! are fixed for a given crate version), and the few facts that the sources
//! show are stated beside the name.
use unicode_normalization::UnicodeNormalization;
use unicode_segmentation::UnicodeSegmentation;
use vstd::prelude::*;

verus! {

/// The Normalization Form KD (compatibility decomposition) of a string.
pub uninterp spec fn nfkd_of(s: Seq<char>) -> Seq<char>;

/// The Normalization Form C (canonical decomposition, then composition) of a string.
pub uninterp spec fn nfc_of(s: Seq<char>) -> Seq<char>;

/// The extended grapheme clusters of a string, in order.
pub uninterp spec fn grapheme_clusters(s: Seq<char>) -> Seq<Seq<char>>;

/// The full lowercase mapping of one character.
pub uninterp spec fn lowercase_of(c: char) -> Seq<char>;

/// The full uppercase mapping of one character.
pub uninterp spec fn uppercase_of(c: char) -> Seq<char>;

/// Calls `UnicodeNormalization::nfkd` on `s` and collects the characters.
/// The contract names the result (`nfkd_of(s@)`) and claims what the crate's
/// source shows of 7-bit ASCII: it never decomposes and is a starter
/// (combining class 0, never reordered), so ASCII text comes back unchanged.
#[verifier::external_body]
pub(crate) fn nfkd(s: &str) -> (r: Vec<char>)
    ensures
        r@ == nfkd_of(s@),
        (forall|i: int| 0 <= i < s@.len() ==> (#[trigger] s@[i] as u32) < 128) ==> r@ == s@,
{
    s.nfkd().collect()
}

/// Calls `UnicodeNormalization::nfc` on `s` and collects the characters;
/// the contract claims only that the result is `nfc_of(s@)`.
#[verifier::external_body]
pub(crate) fn nfc(s: &str) -> (r: String)
    ensures
        r@ == nfc_of(s@),
{
    s.nfc().collect()
}

/// Calls `UnicodeSegmentation::graphemes(s, true)` and copies each cluster.
/// Besides naming the clusters, the contract claims what the iterator's source
/// shows: each cluster is the next non-empty slice of `s` between two
/// boundaries, so the clusters are non-empty and concatenate back to `s`.
#[verifier::external_body]
pub(crate) fn graphemes(s: &str) -> (r: Vec<String>)
    ensures
        r@.map_values(|g: String| g@) == grapheme_clusters(s@),
        r@.map_values(|g: String| g@).flatten() == s@,
        forall|i: int| 0 <= i < r@.len() ==> (#[trigger] r@[i])@.len() > 0,
{
    let mut out: Vec<String> = Vec::new();
    for g in UnicodeSegmentation::graphemes(s, true) {
        out.push(g.to_string());
    }
    out
}

/// Calls `char::to_lowercase` and collects the characters; std documents that
/// the mapping yields one or more characters, and the character itself where
/// it has no lowercase mapping, as lowercase ASCII letters, space, `-`, `_`
/// and `'` have none; `A`–`Z` map to `a`–`z` (the ASCII case mapping, 32 code
/// points down).
#[verifier::external_body]
pub(crate) fn char_lowercase(c: char) -> (r: Vec<char>)
    ensures
        r@ == lowercase_of(c),
        r@.len() >= 1,
        ('a' <= c && c <= 'z') || c == ' ' || c == '-' || c == '_' || c == '\'' ==> r@ == seq![c],
        ('A' <= c && c <= 'Z') ==> r@ == seq![((c as u32) + 32) as char],
{
    c.to_lowercase().collect()
}

/// Calls `char::to_uppercase` and collects the characters; std documents that
/// the mapping yields one or more characters.
#[verifier::external_body]
pub(crate) fn char_uppercase(c: char) -> (r: Vec<char>)
    ensures
        r@ == uppercase_of(c),
        r@.len() >= 1,
{
    c.to_uppercase().collect()
}

} // verus!
