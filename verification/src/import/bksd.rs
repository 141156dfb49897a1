//! BKSD (Bilingual Keystroke Dynamics Dataset): positional timing features
//! (`DD.1_2`, `DD.2_3`, ...) rather than character-labelled digraphs. The
//! timings are imported under a synthetic phrase of private-use characters,
//! one per position, so that the digraph count matches.
use vstd::prelude::*;
use crate::import::header_names;
use crate::import::formats::{
    csv_table_of, entries_view, read_csv, records_view, selected_entries, strings_view,
    zip_entries_named,
};
use crate::text::{chars_of, parse_unsigned, parse_usize, split_once, split_once_chars, starts_with, sub_chars};

verus! {

/// `char::from_u32` gives the character with that scalar value, or `None`
/// for a surrogate or a value past `U+10FFFF`.
pub assume_specification[ core::char::from_u32 ](i: u32) -> (r: Option<char>)
    ensures
        (i < 0xD800 || (0xE000 <= i && i <= 0x10FFFF)) ==> r == Some(i as char),
        !(i < 0xD800 || (0xE000 <= i && i <= 0x10FFFF)) ==> r is None,
;

/// The position that a `DD.<left>_<right>` header names: the number before
/// `_` after the `DD.` prefix, when it parses as a `usize`.
pub open spec fn dd_position(h: Seq<char>) -> Option<nat> {
    if "DD."@.is_prefix_of(h) {
        match split_once(h.skip(3), '_') {
            Some((a, _)) => parse_unsigned(a, usize::MAX as nat),
            None => None,
        }
    } else {
        None
    }
}

/// Whether column `i` comes before column `j` in the order of the
/// timings: by position, and by column index for equal positions.
pub open spec fn column_before(hs: Seq<Seq<char>>, i: int, j: int) -> bool {
    let p = dd_position(hs[i]).unwrap();
    let q = dd_position(hs[j]).unwrap();
    p < q || (p == q && i < j)
}

/// Whether `cols` lists exactly the `DD` columns of the header row, in the
/// order of the timings.
pub open spec fn dd_order(hs: Seq<Seq<char>>, cols: Seq<usize>) -> bool {
    &&& forall|k: int| 0 <= k < cols.len() ==> (#[trigger] cols[k]) < hs.len() && dd_position(
        hs[cols[k] as int],
    ) is Some
    &&& forall|i: int|
        0 <= i < hs.len() && (#[trigger] dd_position(hs[i])) is Some ==> cols.contains(i as usize)
    &&& forall|k: int, l: int| 0 <= k < l < cols.len() ==> column_before(hs, cols[k] as int, cols[l] as int)
}

/// Whether the header row has a `DD` column.
pub open spec fn has_dd_column(hs: Seq<Seq<char>>) -> bool {
    exists|i: int| 0 <= i < hs.len() && (#[trigger] dd_position(hs[i])) is Some
}

/// The cells of the given columns, record by record.
pub open spec fn cells_at(recs: Seq<Seq<Seq<char>>>, cols: Seq<usize>) -> Seq<Seq<Seq<char>>> {
    recs.map_values(|rec: Seq<Seq<char>>| cols.map_values(|c: usize| rec[c as int]))
}

/// The position of one header.
fn header_position(h: &String) -> (r: Option<usize>)
    ensures
        match r {
            Some(p) => dd_position(h@) == Some(p as nat),
            None => dd_position(h@) is None,
        },
{
    let hc = chars_of(h.as_str());
    let prefix = chars_of("DD.");
    proof {
        reveal_strlit("DD.");
    }
    if !starts_with(hc.as_slice(), prefix.as_slice()) {
        return None;
    }
    let rest = sub_chars(hc.as_slice(), 3, hc.len());
    assert(rest@ =~= h@.skip(3));
    match split_once_chars(rest.as_slice(), '_') {
        Some((a, _)) => parse_usize(a.as_slice()),
        None => None,
    }
}

/// The `DD.<i>_<j>` columns of the header row, ordered by their left index
/// `i` (a stable order: equal indices keep their column order).
pub fn dd_columns_in_order(headers: &[String]) -> (r: Vec<usize>)
    ensures
        dd_order(header_names(headers@, false), r@),
{
    let ghost hs = header_names(headers@, false);
    let mut rest: Vec<(usize, usize)> = Vec::new();
    for i in 0..headers.len()
        invariant
            hs == header_names(headers@, false),
            forall|k: int|
                0 <= k < rest@.len() ==> (#[trigger] rest@[k]).1 < i && dd_position(
                    hs[rest@[k].1 as int],
                ) == Some(rest@[k].0 as nat),
            forall|j: int|
                0 <= j < i && (#[trigger] dd_position(hs[j])) is Some ==> exists|k: int|
                    0 <= k < rest@.len() && rest@[k].1 == j,
            forall|k: int, l: int| 0 <= k < l < rest@.len() ==> rest@[k].1 < rest@[l].1,
    {
        assert(hs[i as int] == headers@[i as int]@);
        match header_position(&headers[i]) {
            Some(p) => {
                let ghost old_rest = rest@;
                rest.push((p, i));
                assert forall|j: int|
                    0 <= j < i + 1 && (#[trigger] dd_position(hs[j])) is Some implies exists|k: int|
                    0 <= k < rest@.len() && rest@[k].1 == j by {
                    if j == i {
                        assert(rest@[rest@.len() - 1].1 == j);
                    } else {
                        let k = choose|k: int| 0 <= k < old_rest.len() && old_rest[k].1 == j;
                        assert(rest@[k] == old_rest[k]);
                    }
                }
            },
            None => {},
        }
    }
    let mut out: Vec<usize> = Vec::new();
    while rest.len() > 0
        invariant
            hs == header_names(headers@, false),
            forall|k: int|
                0 <= k < rest@.len() ==> (#[trigger] rest@[k]).1 < hs.len() && dd_position(
                    hs[rest@[k].1 as int],
                ) == Some(rest@[k].0 as nat),
            forall|k: int, l: int| 0 <= k < l < rest@.len() ==> rest@[k].1 != rest@[l].1,
            forall|k: int|
                0 <= k < out@.len() ==> (#[trigger] out@[k]) < hs.len() && dd_position(
                    hs[out@[k] as int],
                ) is Some,
            forall|j: int|
                0 <= j < hs.len() && (#[trigger] dd_position(hs[j])) is Some ==> out@.contains(
                    j as usize,
                ) || exists|k: int| 0 <= k < rest@.len() && rest@[k].1 == j,
            forall|k: int, l: int|
                0 <= k < l < out@.len() ==> column_before(hs, out@[k] as int, out@[l] as int),
            forall|k: int, l: int|
                0 <= k < out@.len() && 0 <= l < rest@.len() ==> column_before(
                    hs,
                    #[trigger] out@[k] as int,
                    #[trigger] rest@[l].1 as int,
                ),
        decreases rest@.len(),
    {
        let m = rest.len();
        let mut best: usize = 0;
        for t in 1..m
            invariant
                m == rest@.len(),
                best < t,
                best < m,
                forall|u: int|
                    0 <= u < t && u != best ==> (rest@[best as int].0 < rest@[u].0 || (
                    rest@[best as int].0 == rest@[u].0 && rest@[best as int].1 < #[trigger] rest@[u].1)),
                forall|k: int, l: int| 0 <= k < l < rest@.len() ==> rest@[k].1 != rest@[l].1,
        {
            let (tp, ti) = rest[t];
            let (bp, bi) = rest[best];
            if tp < bp || (tp == bp && ti < bi) {
                best = t;
            }
        }
        let ghost old_rest = rest@;
        let ghost old_out = out@;
        let b = rest.remove(best);
        proof {
            old_rest.remove_ensures(best as int);
        }
        out.push(b.1);
        assert forall|k: int| 0 <= k < out@.len() implies (#[trigger] out@[k]) < hs.len()
            && dd_position(hs[out@[k] as int]) is Some by {
            if k < old_out.len() {
                assert(out@[k] == old_out[k]);
            }
        }
        assert forall|k: int, l: int|
            0 <= k < l < out@.len() implies column_before(hs, out@[k] as int, out@[l] as int) by {
            assert(out@[k] == old_out.push(b.1)[k]);
            if l == out@.len() - 1 {
                if k < old_out.len() {
                    assert(out@[k] == old_out[k]);
                }
            } else {
                assert(out@[k] == old_out[k]);
                assert(out@[l] == old_out[l]);
            }
        }
        assert forall|k: int, l: int|
            0 <= k < out@.len() && 0 <= l < rest@.len() implies column_before(
            hs,
            #[trigger] out@[k] as int,
            #[trigger] rest@[l].1 as int,
        ) by {
            let ol = if l < best {
                l
            } else {
                l + 1
            };
            assert(rest@[l] == old_rest[ol]);
            if k == out@.len() - 1 {
                assert(out@[k] == b.1);
            } else {
                assert(out@[k] == old_out[k]);
            }
        }
        assert forall|k: int| 0 <= k < rest@.len() implies (#[trigger] rest@[k]).1 < hs.len()
            && dd_position(hs[rest@[k].1 as int]) == Some(rest@[k].0 as nat) by {
            let ok = if k < best {
                k
            } else {
                k + 1
            };
            assert(rest@[k] == old_rest[ok]);
        }
        assert forall|k: int, l: int| 0 <= k < l < rest@.len() implies rest@[k].1 != rest@[l].1 by {
            let ok = if k < best {
                k
            } else {
                k + 1
            };
            let ol = if l < best {
                l
            } else {
                l + 1
            };
            assert(rest@[k] == old_rest[ok]);
            assert(rest@[l] == old_rest[ol]);
        }
        assert forall|j: int|
            0 <= j < hs.len() && (#[trigger] dd_position(hs[j])) is Some implies out@.contains(
            j as usize,
        ) || exists|k: int| 0 <= k < rest@.len() && rest@[k].1 == j by {
            if old_out.contains(j as usize) {
                let k = choose|k: int| 0 <= k < old_out.len() && old_out[k] == j as usize;
                assert(out@[k] == old_out[k]);
            } else {
                let k = choose|k: int| 0 <= k < old_rest.len() && old_rest[k].1 == j;
                if k == best {
                    assert(out@[out@.len() - 1] == j as usize);
                } else if k < best {
                    assert(rest@[k] == old_rest[k]);
                } else {
                    assert(rest@[k - 1] == old_rest[k]);
                }
            }
        }
    }
    out
}

/// Why a synthetic phrase could not be made.
#[derive(Debug, Clone, PartialEq, Eq)]
pub enum SyntheticPhraseError {
    /// More characters were asked for than the private-use range holds.
    TooLong(usize),
}

/// `len` distinct private-use characters, `U+E000`, `U+E001`, ...
pub open spec fn synthetic_chars(len: nat) -> Seq<char> {
    Seq::new(len, |i: int| (0xE000 + i) as char)
}

/// A phrase of `len` distinct characters from the Private Use Area
/// (`U+E000` to `U+F8FF`, 6400 code points); longer phrases are refused.
pub fn synthetic_phrase(len: usize) -> (r: Result<String, SyntheticPhraseError>)
    ensures
        len > 6400 ==> r == Err::<String, SyntheticPhraseError>(SyntheticPhraseError::TooLong(len)),
        len <= 6400 ==> (r matches Ok(s) && s@ == synthetic_chars(len as nat)),
{
    if len == 0 {
        return Ok(String::new());
    }
    if len > 6400 {
        return Err(SyntheticPhraseError::TooLong(len));
    }
    let mut s = String::new();
    for i in 0..len
        invariant
            len <= 6400,
            s@ == synthetic_chars(i as nat),
    {
        let cp: u32 = 0xE000u32 + (i as u32);
        match core::char::from_u32(cp) {
            Some(ch) => {
                s.push(ch);
                assert(s@ =~= synthetic_chars((i + 1) as nat));
            },
            None => {},
        }
    }
    Ok(s)
}


/// Why a BKSD timing table could not be read.
#[derive(Debug)]
pub enum BksdError {
    /// The data is not a CSV table.
    Csv(csv::Error),
    /// The header row has no `DD.<i>_<j>` column.
    NoDdColumns,
}

/// Read a BKSD CSV table: its `DD` columns in timing order, and for each
/// record the cells of those columns (times as written); the caller parses
/// the numbers.
pub fn dd_table(bytes: &[u8]) -> (r: Result<(Vec<usize>, Vec<Vec<String>>), BksdError>)
    ensures
        match csv_table_of(bytes@) {
            None => r matches Err(BksdError::Csv(_)),
            Some((hs, recs)) => if has_dd_column(hs) {
                r matches Ok((cols, cells)) && dd_order(hs, cols@) && records_view(cells@)
                    == cells_at(recs, cols@)
            } else {
                r matches Err(BksdError::NoDdColumns)
            },
        },
{
    let (headers, records) = match read_csv(bytes) {
        Ok(t) => t,
        Err(e) => {
            return Err(BksdError::Csv(e));
        },
    };
    let ghost hs = strings_view(headers@);
    let ghost recs = records_view(records@);
    assert(header_names(headers@, false) =~= hs);
    let cols = dd_columns_in_order(headers.as_slice());
    if cols.len() == 0 {
        assert(!has_dd_column(hs)) by {
            if has_dd_column(hs) {
                let i = choose|i: int| 0 <= i < hs.len() && (#[trigger] dd_position(hs[i])) is Some;
                assert(cols@.contains(i as usize));
            }
        }
        return Err(BksdError::NoDdColumns);
    }
    assert(has_dd_column(hs)) by {
        assert(dd_position(hs[cols@[0] as int]) is Some);
    }
    let mut out: Vec<Vec<String>> = Vec::new();
    for i in 0..records.len()
        invariant
            hs == strings_view(headers@),
            recs == records_view(records@),
            dd_order(hs, cols@),
            hs.len() == headers@.len(),
            forall|m: int| 0 <= m < records@.len() ==> (#[trigger] records@[m])@.len() == headers@.len(),
            records_view(out@) == cells_at(recs, cols@).take(i as int),
    {
        let rec = &records[i];
        let mut cells: Vec<String> = Vec::new();
        for j in 0..cols.len()
            invariant
                rec@.len() == headers@.len(),
                hs.len() == headers@.len(),
                dd_order(hs, cols@),
                cells@.len() == j,
                forall|m: int| 0 <= m < j ==> (#[trigger] cells@[m])@ == rec@[cols@[m] as int]@,
        {
            assert(cols@[j as int] < hs.len());
            cells.push(rec[cols[j]].clone());
        }
        let ghost row = cells_at(recs, cols@)[i as int];
        assert(strings_view(cells@) =~= row) by {
            assert(recs[i as int] == strings_view(rec@));
        }
        let ghost prev = out@;
        out.push(cells);
        assert(records_view(out@) =~= records_view(prev).push(row));
        assert(cells_at(recs, cols@).take(i + 1) =~= cells_at(recs, cols@).take(i as int).push(row));
    }
    assert(cells_at(recs, cols@).take(records@.len() as int) =~= cells_at(recs, cols@));
    Ok((cols, out))
}

/// The CSV files of a BKSD archive (names ending in `.csv`, in any case),
/// with their contents, in archive order.
pub fn csv_files(zip_bytes: &[u8]) -> (r: Result<Vec<(String, Vec<u8>)>, zip::result::ZipError>)
    ensures
        match r {
            Ok(v) => selected_entries(zip_bytes@, ".csv"@, true) == Some(entries_view(v@)),
            Err(_) => selected_entries(zip_bytes@, ".csv"@, true) is None,
        },
{
    let suffix = chars_of(".csv");
    zip_entries_named(zip_bytes, suffix.as_slice(), true)
}

} // verus!
