//! The text-level logic of importing public keystroke-dynamics datasets:
//! which entries and columns are used, how key names become graphemes, and
//! how rows are labelled. Reading archives and CSV records and parsing the
//! timing numbers stays with the caller.
use vstd::prelude::*;
use crate::text::{chars_eq, chars_of, trim, trim_chars};

pub mod bksd;
pub mod cmu_dsl;
pub mod cmu_laser2012;
pub mod formats;
pub mod greyc_web;
pub mod keyrecs;

verus! {

/// The last position at which `name` occurs among the header names.
pub open spec fn last_header(headers: Seq<Seq<char>>, name: Seq<char>) -> Option<int>
    decreases headers.len(),
{
    if headers.len() == 0 {
        None
    } else if headers.last() == name {
        Some(headers.len() - 1)
    } else {
        last_header(headers.drop_last(), name)
    }
}

/// A found header lies within the row and carries the name.
pub(crate) proof fn lemma_last_header(headers: Seq<Seq<char>>, name: Seq<char>)
    ensures
        last_header(headers, name) matches Some(i) ==> 0 <= i < headers.len() && headers[i]
            == name,
    decreases headers.len(),
{
    if headers.len() > 0 && headers.last() != name {
        lemma_last_header(headers.drop_last(), name);
    }
}

/// Header names by value, trimmed or as written.
pub open spec fn header_names(headers: Seq<String>, trimmed: bool) -> Seq<Seq<char>> {
    headers.map_values(|h: String| if trimmed { trim(h@) } else { h@ })
}

/// The column named `name`, the last one when several share the name (as
/// when the header row is collected into a map); names are compared after
/// trimming when `trimmed`.
pub fn column_index(headers: &[String], name: &[char], trimmed: bool) -> (r: Option<usize>)
    ensures
        match r {
            Some(i) => last_header(header_names(headers@, trimmed), name@) == Some(i as int),
            None => last_header(header_names(headers@, trimmed), name@) is None,
        },
{
    let ghost hv = header_names(headers@, trimmed);
    let mut k: usize = headers.len();
    assert(hv.take(k as int) =~= hv);
    while k > 0
        invariant
            k <= headers@.len(),
            hv == header_names(headers@, trimmed),
            last_header(hv, name@) == last_header(hv.take(k as int), name@),
        decreases k,
    {
        let ghost t = hv.take(k as int);
        assert(t.drop_last() =~= hv.take(k - 1));
        assert(t.last() == hv[k - 1]);
        let h = chars_of(headers[k - 1].as_str());
        let hn = if trimmed {
            trim_chars(h.as_slice())
        } else {
            h
        };
        if chars_eq(hn.as_slice(), name) {
            return Some(k - 1);
        }
        k = k - 1;
    }
    assert(hv.take(0) =~= Seq::<Seq<char>>::empty());
    None
}

} // verus!
