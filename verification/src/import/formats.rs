//! The container formats that datasets arrive in: CSV tables, ZIP archives,
//! gzip-compressed tar archives and UTF-8 text, read by the `csv`, `zip`,
//! `flate2` and `tar` crates and by `std`.
use std::io::Read;
use vstd::prelude::*;
use vstd::utf8::{decode_utf8, valid_utf8};
use crate::text::{ascii_lower, chars_of, ends_with, to_ascii_lower};

verus! {

#[verifier::external_type_specification]
#[verifier::external_body]
pub struct ExCsvError(csv::Error);

#[verifier::external_type_specification]
#[verifier::external_body]
pub struct ExZipError(zip::result::ZipError);

#[verifier::external_type_specification]
#[verifier::external_body]
pub struct ExUtf8Error(std::str::Utf8Error);

#[verifier::external_type_specification]
#[verifier::external_body]
pub struct ExIoError(std::io::Error);

/// Strings by value.
pub open spec fn strings_view(v: Seq<String>) -> Seq<Seq<char>> {
    v.map_values(|s: String| s@)
}

/// Records of strings by value.
pub open spec fn records_view(v: Seq<Vec<String>>) -> Seq<Seq<Seq<char>>> {
    v.map_values(|r: Vec<String>| strings_view(r@))
}

/// The header row and the records of CSV data as read by the `csv` crate's
/// default reader (comma-separated, first row as headers, fields as text),
/// or `None` where reading fails.
pub uninterp spec fn csv_table_of(bytes: Seq<u8>) -> Option<(Seq<Seq<char>>, Seq<Seq<Seq<char>>>)>;

/// The names of the entries of a ZIP archive in order, or `None` where the
/// archive or one of its entries cannot be opened.
pub uninterp spec fn zip_names_of(bytes: Seq<u8>) -> Option<Seq<Seq<char>>>;

/// The contents of entry `i` of a ZIP archive, or `None` where it cannot be
/// opened or read.
pub uninterp spec fn zip_entry_of(bytes: Seq<u8>, i: nat) -> Option<Seq<u8>>;

/// Reading a gzip-compressed tar archive entry by entry: the entries read
/// in order, each with its path (as `tar::Entry::path` gives it, taken
/// lossily as text) and contents, up to the first failure of decompressing
/// or reading, and whether the archive was read to its end without one.
pub uninterp spec fn tar_gz_read_of(bytes: Seq<u8>) -> (Seq<(Seq<char>, Seq<u8>)>, bool);

/// Decompresses with `flate2::read::GzDecoder` and reads the archive with
/// `tar::Archive::entries`, taking each entry's `path` (through
/// `to_string_lossy`) and its contents (`read_to_end`), and stops at the
/// first error, which it returns beside the entries read before it. The
/// contract names the result (`tar_gz_read_of`).
#[verifier::external_body]
pub(crate) fn tar_gz_entries(bytes: &[u8]) -> (r: (Vec<(String, Vec<u8>)>, Option<std::io::Error>))
    ensures
        tar_gz_read_of(bytes@) == (entries_view(r.0@), r.1 is None),
{
    let mut ar = tar::Archive::new(flate2::read::GzDecoder::new(bytes));
    let mut out = Vec::new();
    let entries = match ar.entries() { Ok(es) => es, Err(err) => return (out, Some(err)) };
    for entry in entries {
        let mut e = match entry { Ok(e) => e, Err(err) => return (out, Some(err)) };
        let path = match e.path() { Ok(p) => p.to_string_lossy().to_string(), Err(err) => return (out, Some(err)) };
        let mut buf = Vec::new();
        if let Err(err) = e.read_to_end(&mut buf) { return (out, Some(err)) }
        out.push((path, buf));
    }
    (out, None)
}

/// Reads CSV data with `csv::Reader::from_reader`: the `headers` row and
/// every record of `records`, each field as a `String`. The contract names
/// the result (`csv_table_of`), fails exactly when that is `None`, and states
/// that every record has as many fields as the header row (the reader is not
/// `flexible`, so a record of another length is an error).
#[verifier::external_body]
pub(crate) fn read_csv(bytes: &[u8]) -> (r: Result<(Vec<String>, Vec<Vec<String>>), csv::Error>)
    ensures
        match r {
            Ok(t) => {
                &&& csv_table_of(bytes@) == Some((strings_view(t.0@), records_view(t.1@)))
                &&& forall|i: int| 0 <= i < t.1@.len() ==> (#[trigger] t.1@[i])@.len() == t.0@.len()
            },
            Err(_) => csv_table_of(bytes@) is None,
        },
{
    let mut rdr = csv::Reader::from_reader(bytes);
    let mut headers: Vec<String> = Vec::new();
    for h in rdr.headers()?.iter() {
        headers.push(h.to_string());
    }
    let mut records: Vec<Vec<String>> = Vec::new();
    for rec in rdr.records() {
        let mut fields: Vec<String> = Vec::new();
        for f in rec?.iter() {
            fields.push(f.to_string());
        }
        records.push(fields);
    }
    Ok((headers, records))
}

/// Opens a ZIP archive with `zip::ZipArchive::new` and opens each entry with
/// `by_index` to take its `name`. The contract names the result
/// (`zip_names_of`) and fails exactly when that is `None`.
#[verifier::external_body]
pub(crate) fn zip_names(bytes: &[u8]) -> (r: Result<Vec<String>, zip::result::ZipError>)
    ensures
        match r {
            Ok(v) => zip_names_of(bytes@) == Some(strings_view(v@)),
            Err(_) => zip_names_of(bytes@) is None,
        },
{
    let mut z = zip::ZipArchive::new(std::io::Cursor::new(bytes))?;
    let mut names: Vec<String> = Vec::new();
    for i in 0..z.len() {
        names.push(z.by_index(i)?.name().to_string());
    }
    Ok(names)
}

/// Opens a ZIP archive with `zip::ZipArchive::new` and reads entry `i`
/// (`by_index`, then `read_to_end`). The contract names the result
/// (`zip_entry_of`) and fails exactly when that is `None`.
#[verifier::external_body]
pub(crate) fn zip_entry(bytes: &[u8], i: usize) -> (r: Result<Vec<u8>, zip::result::ZipError>)
    ensures
        match r {
            Ok(v) => zip_entry_of(bytes@, i as nat) == Some(v@),
            Err(_) => zip_entry_of(bytes@, i as nat) is None,
        },
{
    let mut z = zip::ZipArchive::new(std::io::Cursor::new(bytes))?;
    let mut f = z.by_index(i)?;
    let mut buf: Vec<u8> = Vec::new();
    f.read_to_end(&mut buf)?;
    Ok(buf)
}

/// `std::str::from_utf8`, the text taken as a `String`: the text that the
/// bytes encode, failing exactly when they are not valid UTF-8.
#[verifier::external_body]
pub(crate) fn utf8_text(bytes: &[u8]) -> (r: Result<String, std::str::Utf8Error>)
    ensures
        match r {
            Ok(s) => valid_utf8(bytes@) && s@ == decode_utf8(bytes@),
            Err(_) => !valid_utf8(bytes@),
        },
{
    match std::str::from_utf8(bytes) {
        Ok(s) => Ok(s.to_string()),
        Err(e) => Err(e),
    }
}

/// Whether every entry's contents are valid UTF-8.
pub open spec fn all_utf8(es: Seq<(Seq<char>, Seq<u8>)>) -> bool {
    forall|k: int| 0 <= k < es.len() ==> valid_utf8(#[trigger] es[k].1)
}

/// The text of the last of the entries, when all are valid UTF-8 (`Ok(None)`
/// when there is none).
pub(crate) fn last_text(entries: &Vec<(String, Vec<u8>)>) -> (r: Result<Option<String>, std::str::Utf8Error>)
    ensures
        ({
            let es = entries_view(entries@);
            match r {
                Ok(t) => all_utf8(es) && (es.len() == 0 ==> t is None) && (es.len() > 0 ==> (
                t matches Some(s) && s@ == decode_utf8(es.last().1))),
                Err(_) => !all_utf8(es),
            }
        }),
{
    let ghost es = entries_view(entries@);
    let mut last: Option<String> = None;
    for k in 0..entries.len()
        invariant
            es == entries_view(entries@),
            forall|m: int| 0 <= m < k ==> valid_utf8(#[trigger] es[m].1),
            k == 0 ==> last is None,
            k > 0 ==> (last matches Some(s) && s@ == decode_utf8(es[k - 1].1)),
    {
        assert(es[k as int].1 == entries@[k as int].1@);
        match utf8_text(entries[k].1.as_slice()) {
            Ok(t) => {
                last = Some(t);
            },
            Err(e) => {
                return Err(e);
            },
        }
    }
    Ok(last)
}

/// Whether an entry name is selected: it ends with `suffix`, compared after
/// ASCII lowercasing when `fold`.
pub open spec fn name_selected(name: Seq<char>, suffix: Seq<char>, fold: bool) -> bool {
    suffix.is_suffix_of(if fold { ascii_lower(name) } else { name })
}

/// The positions of the selected names, in order.
pub open spec fn selected_indices(ns: Seq<Seq<char>>, suffix: Seq<char>, fold: bool) -> Seq<int>
    decreases ns.len(),
{
    if ns.len() == 0 {
        Seq::empty()
    } else {
        let prev = selected_indices(ns.drop_last(), suffix, fold);
        if name_selected(ns.last(), suffix, fold) {
            prev.push(ns.len() - 1)
        } else {
            prev
        }
    }
}

/// Whether every entry at the given positions can be read.
pub open spec fn all_readable(bytes: Seq<u8>, idx: Seq<int>) -> bool {
    forall|k: int| 0 <= k < idx.len() ==> (#[trigger] zip_entry_of(bytes, idx[k] as nat)) is Some
}

/// The selected entries of a ZIP archive, name and contents, in order; `None`
/// where the archive cannot be listed or a selected entry cannot be read.
pub open spec fn selected_entries(bytes: Seq<u8>, suffix: Seq<char>, fold: bool) -> Option<
    Seq<(Seq<char>, Seq<u8>)>,
> {
    match zip_names_of(bytes) {
        None => None,
        Some(ns) => {
            let idx = selected_indices(ns, suffix, fold);
            if all_readable(bytes, idx) {
                Some(
                    Seq::new(
                        idx.len(),
                        |k: int| (ns[idx[k]], zip_entry_of(bytes, idx[k] as nat).unwrap()),
                    ),
                )
            } else {
                None
            }
        },
    }
}

/// Entries by value.
pub open spec fn entries_view(v: Seq<(String, Vec<u8>)>) -> Seq<(Seq<char>, Seq<u8>)> {
    v.map_values(|e: (String, Vec<u8>)| (e.0@, e.1@))
}

proof fn lemma_selected_indices(ns: Seq<Seq<char>>, suffix: Seq<char>, fold: bool)
    ensures
        forall|k: int|
            0 <= k < selected_indices(ns, suffix, fold).len() ==> 0 <= #[trigger] selected_indices(
                ns,
                suffix,
                fold,
            )[k] < ns.len() && name_selected(ns[selected_indices(ns, suffix, fold)[k]], suffix, fold),
        forall|i: int|
            0 <= i < ns.len() && name_selected(#[trigger] ns[i], suffix, fold) ==> selected_indices(
                ns,
                suffix,
                fold,
            ).contains(i),
    decreases ns.len(),
{
    if ns.len() > 0 {
        let d = ns.drop_last();
        lemma_selected_indices(d, suffix, fold);
        let prev = selected_indices(d, suffix, fold);
        assert forall|k: int| 0 <= k < prev.len() implies ns[#[trigger] prev[k]] == d[prev[k]] by {}
        assert forall|i: int| 0 <= i < ns.len() && name_selected(#[trigger] ns[i], suffix, fold)
            implies selected_indices(ns, suffix, fold).contains(i) by {
            if i < ns.len() - 1 {
                assert(d[i] == ns[i]);
                let k = choose|k: int| 0 <= k < prev.len() && prev[k] == i;
                if name_selected(ns.last(), suffix, fold) {
                    assert(prev.push(ns.len() - 1)[k] == i);
                }
            } else {
                let s = selected_indices(ns, suffix, fold);
                assert(s[s.len() - 1] == i);
            }
        }
    }
}

/// The entries of a ZIP archive whose names end with `suffix` (after ASCII
/// lowercasing when `fold`), with their contents, in archive order.
pub fn zip_entries_named(bytes: &[u8], suffix: &[char], fold: bool) -> (r: Result<
    Vec<(String, Vec<u8>)>,
    zip::result::ZipError,
>)
    ensures
        match r {
            Ok(v) => selected_entries(bytes@, suffix@, fold) == Some(entries_view(v@)),
            Err(_) => selected_entries(bytes@, suffix@, fold) is None,
        },
{
    let names = zip_names(bytes)?;
    let ghost ns = strings_view(names@);
    let mut out: Vec<(String, Vec<u8>)> = Vec::new();
    for i in 0..names.len()
        invariant
            zip_names_of(bytes@) == Some(ns),
            ns == strings_view(names@),
            entries_view(out@).len() == selected_indices(ns.take(i as int), suffix@, fold).len(),
            forall|k: int|
                0 <= k < out@.len() ==> #[trigger] entries_view(out@)[k] == (
                    ns[selected_indices(ns.take(i as int), suffix@, fold)[k]],
                    zip_entry_of(bytes@, selected_indices(ns.take(i as int), suffix@, fold)[k] as nat).unwrap(),
                ),
            all_readable(bytes@, selected_indices(ns.take(i as int), suffix@, fold)),
    {
        let ghost pre = ns.take(i as int);
        let ghost cur = ns.take(i + 1);
        assert(cur.drop_last() =~= pre);
        assert(cur.last() == ns[i as int]);
        assert(ns[i as int] == names@[i as int]@);
        let nc = chars_of(names[i].as_str());
        let key = if fold {
            to_ascii_lower(nc.as_slice())
        } else {
            nc
        };
        let sel = ends_with(key.as_slice(), suffix);
        let ghost pidx = selected_indices(pre, suffix@, fold);
        assert(sel == name_selected(ns[i as int], suffix@, fold));
        assert(selected_indices(cur, suffix@, fold) == if sel {
            pidx.push(i as int)
        } else {
            pidx
        });
        if sel {
            let contents = match zip_entry(bytes, i) {
                Ok(c) => c,
                Err(e) => {
                    proof {
                        let idx = selected_indices(ns, suffix@, fold);
                        lemma_selected_indices(ns, suffix@, fold);
                        let k = choose|k: int| 0 <= k < idx.len() && idx[k] == i as int;
                        assert(zip_entry_of(bytes@, idx[k] as nat) is None);
                        assert(!all_readable(bytes@, idx));
                    }
                    return Err(e);
                },
            };
            let ghost prev = out@;
            out.push((names[i].clone(), contents));
            assert(entries_view(out@) =~= entries_view(prev).push((ns[i as int], zip_entry_of(bytes@, i as nat).unwrap())));
            let ghost cidx = pidx.push(i as int);
            assert(all_readable(bytes@, cidx)) by {
                assert forall|k: int| 0 <= k < cidx.len() implies (#[trigger] zip_entry_of(
                    bytes@,
                    cidx[k] as nat,
                )) is Some by {
                    if k < pidx.len() {
                        assert(cidx[k] == pidx[k]);
                    }
                }
            }
            assert forall|k: int| 0 <= k < out@.len() implies #[trigger] entries_view(out@)[k] == (
                ns[cidx[k]],
                zip_entry_of(bytes@, cidx[k] as nat).unwrap(),
            ) by {
                if k < prev.len() {
                    assert(cidx[k] == pidx[k]);
                    assert(entries_view(out@)[k] == entries_view(prev)[k]);
                }
            }
        }
    }
    proof {
        assert(ns.take(names@.len() as int) =~= ns);
        let idx = selected_indices(ns, suffix@, fold);
        assert(entries_view(out@) =~= Seq::new(
            idx.len(),
            |k: int| (ns[idx[k]], zip_entry_of(bytes@, idx[k] as nat).unwrap()),
        ));
    }
    Ok(out)
}

} // verus!
