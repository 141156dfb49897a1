//! KeyRecs (Zenodo, CC-BY 4.0) keystroke dynamics dataset: a free-text file
//! with character-labelled digraph features, including a `DD.key1.key2`
//! column.
use vstd::prelude::*;
use crate::import::{column_index, header_names, last_header, lemma_last_header};
use crate::import::formats::{csv_table_of, read_csv, records_view, strings_view};
use crate::text::{
    append_chars, ascii_lower, chars_eq, chars_of, decimal, decimal_chars, parse_u32, parse_unsigned,
    string_from, to_ascii_lower, trim, trim_chars,
};

verus! {

/// Where the free-text file is published.
pub fn free_text_url() -> (r: &'static str)
    ensures
        r@ == "https://zenodo.org/records/7886743/files/free-text.csv?download=1"@,
{
    "https://zenodo.org/records/7886743/files/free-text.csv?download=1"
}

/// Where the fixed-text file is published.
pub fn fixed_text_url() -> (r: &'static str)
    ensures
        r@ == "https://zenodo.org/records/7886743/files/fixed-text.csv?download=1"@,
{
    "https://zenodo.org/records/7886743/files/fixed-text.csv?download=1"
}

/// The grapheme typed by a named key, for the names that both datasets use
/// for punctuation and space.
pub open spec fn named_key(k: Seq<char>) -> Option<char> {
    if k == "space"@ {
        Some(' ')
    } else if k == "comma"@ {
        Some(',')
    } else if k == "period"@ {
        Some('.')
    } else if k == "apostrophe"@ {
        Some('\'')
    } else if k == "semicolon"@ {
        Some(';')
    } else if k == "minus"@ {
        Some('-')
    } else if k == "equal"@ {
        Some('=')
    } else if k == "slash"@ {
        Some('/')
    } else if k == "backslash"@ {
        Some('\\')
    } else {
        None
    }
}

/// The grapheme of a lowercased key name: a named key, or a name that is a
/// single one-byte (ASCII) character.
pub open spec fn key_grapheme(k: Seq<char>) -> Option<Seq<char>> {
    match named_key(k) {
        Some(c) => Some(seq![c]),
        None => if k.len() == 1 && k[0] <= '\u{7f}' {
            Some(k)
        } else {
            None
        },
    }
}

/// A named key types the one character it names: `space` a space, `comma`
/// `,`, `period` `.`, `apostrophe` `'`, `semicolon` `;`, `minus` `-`,
/// `equal` `=`, `slash` `/` and `backslash` `\\`; a one-character ASCII name
/// types itself; and whatever a key types is a single character.
pub proof fn named_keys_type_their_character(k: Seq<char>)
    ensures
        key_grapheme("space"@) == Some(seq![' ']),
        key_grapheme("comma"@) == Some(seq![',']),
        key_grapheme("period"@) == Some(seq!['.']),
        key_grapheme("apostrophe"@) == Some(seq!['\'']),
        key_grapheme("semicolon"@) == Some(seq![';']),
        key_grapheme("minus"@) == Some(seq!['-']),
        key_grapheme("equal"@) == Some(seq!['=']),
        key_grapheme("slash"@) == Some(seq!['/']),
        key_grapheme("backslash"@) == Some(seq!['\\']),
        k.len() == 1 && k[0] <= '\u{7f}' ==> key_grapheme(k) == Some(k),
        key_grapheme(k) matches Some(g) ==> g.len() == 1,
{
    reveal_strlit("space");
    reveal_strlit("comma");
    reveal_strlit("period");
    reveal_strlit("apostrophe");
    reveal_strlit("semicolon");
    reveal_strlit("minus");
    reveal_strlit("equal");
    reveal_strlit("slash");
    reveal_strlit("backslash");
    assert(key_grapheme("space"@) == Some(seq![' '])) by {
    }
    assert(key_grapheme("comma"@) == Some(seq![','])) by {
        assert("comma"@ != "space"@) by {
            assert("comma"@.len() != "space"@.len() || "comma"@[0] != "space"@[0] || "comma"@[1] != "space"@[1]);
        }
    }
    assert(key_grapheme("period"@) == Some(seq!['.'])) by {
        assert("period"@ != "space"@) by {
            assert("period"@.len() != "space"@.len() || "period"@[0] != "space"@[0] || "period"@[1] != "space"@[1]);
        }
        assert("period"@ != "comma"@) by {
            assert("period"@.len() != "comma"@.len() || "period"@[0] != "comma"@[0] || "period"@[1] != "comma"@[1]);
        }
    }
    assert(key_grapheme("apostrophe"@) == Some(seq!['\''])) by {
        assert("apostrophe"@ != "space"@) by {
            assert("apostrophe"@.len() != "space"@.len() || "apostrophe"@[0] != "space"@[0] || "apostrophe"@[1] != "space"@[1]);
        }
        assert("apostrophe"@ != "comma"@) by {
            assert("apostrophe"@.len() != "comma"@.len() || "apostrophe"@[0] != "comma"@[0] || "apostrophe"@[1] != "comma"@[1]);
        }
        assert("apostrophe"@ != "period"@) by {
            assert("apostrophe"@.len() != "period"@.len() || "apostrophe"@[0] != "period"@[0] || "apostrophe"@[1] != "period"@[1]);
        }
    }
    assert(key_grapheme("semicolon"@) == Some(seq![';'])) by {
        assert("semicolon"@ != "space"@) by {
            assert("semicolon"@.len() != "space"@.len() || "semicolon"@[0] != "space"@[0] || "semicolon"@[1] != "space"@[1]);
        }
        assert("semicolon"@ != "comma"@) by {
            assert("semicolon"@.len() != "comma"@.len() || "semicolon"@[0] != "comma"@[0] || "semicolon"@[1] != "comma"@[1]);
        }
        assert("semicolon"@ != "period"@) by {
            assert("semicolon"@.len() != "period"@.len() || "semicolon"@[0] != "period"@[0] || "semicolon"@[1] != "period"@[1]);
        }
        assert("semicolon"@ != "apostrophe"@) by {
            assert("semicolon"@.len() != "apostrophe"@.len() || "semicolon"@[0] != "apostrophe"@[0] || "semicolon"@[1] != "apostrophe"@[1]);
        }
    }
    assert(key_grapheme("minus"@) == Some(seq!['-'])) by {
        assert("minus"@ != "space"@) by {
            assert("minus"@.len() != "space"@.len() || "minus"@[0] != "space"@[0] || "minus"@[1] != "space"@[1]);
        }
        assert("minus"@ != "comma"@) by {
            assert("minus"@.len() != "comma"@.len() || "minus"@[0] != "comma"@[0] || "minus"@[1] != "comma"@[1]);
        }
        assert("minus"@ != "period"@) by {
            assert("minus"@.len() != "period"@.len() || "minus"@[0] != "period"@[0] || "minus"@[1] != "period"@[1]);
        }
        assert("minus"@ != "apostrophe"@) by {
            assert("minus"@.len() != "apostrophe"@.len() || "minus"@[0] != "apostrophe"@[0] || "minus"@[1] != "apostrophe"@[1]);
        }
        assert("minus"@ != "semicolon"@) by {
            assert("minus"@.len() != "semicolon"@.len() || "minus"@[0] != "semicolon"@[0] || "minus"@[1] != "semicolon"@[1]);
        }
    }
    assert(key_grapheme("equal"@) == Some(seq!['='])) by {
        assert("equal"@ != "space"@) by {
            assert("equal"@.len() != "space"@.len() || "equal"@[0] != "space"@[0] || "equal"@[1] != "space"@[1]);
        }
        assert("equal"@ != "comma"@) by {
            assert("equal"@.len() != "comma"@.len() || "equal"@[0] != "comma"@[0] || "equal"@[1] != "comma"@[1]);
        }
        assert("equal"@ != "period"@) by {
            assert("equal"@.len() != "period"@.len() || "equal"@[0] != "period"@[0] || "equal"@[1] != "period"@[1]);
        }
        assert("equal"@ != "apostrophe"@) by {
            assert("equal"@.len() != "apostrophe"@.len() || "equal"@[0] != "apostrophe"@[0] || "equal"@[1] != "apostrophe"@[1]);
        }
        assert("equal"@ != "semicolon"@) by {
            assert("equal"@.len() != "semicolon"@.len() || "equal"@[0] != "semicolon"@[0] || "equal"@[1] != "semicolon"@[1]);
        }
        assert("equal"@ != "minus"@) by {
            assert("equal"@.len() != "minus"@.len() || "equal"@[0] != "minus"@[0] || "equal"@[1] != "minus"@[1]);
        }
    }
    assert(key_grapheme("slash"@) == Some(seq!['/'])) by {
        assert("slash"@ != "space"@) by {
            assert("slash"@.len() != "space"@.len() || "slash"@[0] != "space"@[0] || "slash"@[1] != "space"@[1]);
        }
        assert("slash"@ != "comma"@) by {
            assert("slash"@.len() != "comma"@.len() || "slash"@[0] != "comma"@[0] || "slash"@[1] != "comma"@[1]);
        }
        assert("slash"@ != "period"@) by {
            assert("slash"@.len() != "period"@.len() || "slash"@[0] != "period"@[0] || "slash"@[1] != "period"@[1]);
        }
        assert("slash"@ != "apostrophe"@) by {
            assert("slash"@.len() != "apostrophe"@.len() || "slash"@[0] != "apostrophe"@[0] || "slash"@[1] != "apostrophe"@[1]);
        }
        assert("slash"@ != "semicolon"@) by {
            assert("slash"@.len() != "semicolon"@.len() || "slash"@[0] != "semicolon"@[0] || "slash"@[1] != "semicolon"@[1]);
        }
        assert("slash"@ != "minus"@) by {
            assert("slash"@.len() != "minus"@.len() || "slash"@[0] != "minus"@[0] || "slash"@[1] != "minus"@[1]);
        }
        assert("slash"@ != "equal"@) by {
            assert("slash"@.len() != "equal"@.len() || "slash"@[0] != "equal"@[0] || "slash"@[1] != "equal"@[1]);
        }
    }
    assert(key_grapheme("backslash"@) == Some(seq!['\\'])) by {
        assert("backslash"@ != "space"@) by {
            assert("backslash"@.len() != "space"@.len() || "backslash"@[0] != "space"@[0] || "backslash"@[1] != "space"@[1]);
        }
        assert("backslash"@ != "comma"@) by {
            assert("backslash"@.len() != "comma"@.len() || "backslash"@[0] != "comma"@[0] || "backslash"@[1] != "comma"@[1]);
        }
        assert("backslash"@ != "period"@) by {
            assert("backslash"@.len() != "period"@.len() || "backslash"@[0] != "period"@[0] || "backslash"@[1] != "period"@[1]);
        }
        assert("backslash"@ != "apostrophe"@) by {
            assert("backslash"@.len() != "apostrophe"@.len() || "backslash"@[0] != "apostrophe"@[0] || "backslash"@[1] != "apostrophe"@[1]);
        }
        assert("backslash"@ != "semicolon"@) by {
            assert("backslash"@.len() != "semicolon"@.len() || "backslash"@[0] != "semicolon"@[0] || "backslash"@[1] != "semicolon"@[1]);
        }
        assert("backslash"@ != "minus"@) by {
            assert("backslash"@.len() != "minus"@.len() || "backslash"@[0] != "minus"@[0] || "backslash"@[1] != "minus"@[1]);
        }
        assert("backslash"@ != "equal"@) by {
            assert("backslash"@.len() != "equal"@.len() || "backslash"@[0] != "equal"@[0] || "backslash"@[1] != "equal"@[1]);
        }
        assert("backslash"@ != "slash"@) by {
            assert("backslash"@.len() != "slash"@.len() || "backslash"@[0] != "slash"@[0] || "backslash"@[1] != "slash"@[1]);
        }
    }
}

/// Whether `k` is the name `lit`.
pub(crate) fn is_name(k: &[char], lit: &str) -> (r: bool)
    ensures
        r == (k@ == lit@),
{
    let l = chars_of(lit);
    chars_eq(k, l.as_slice())
}

/// The grapheme of a lowercased key name.
pub fn grapheme_of_key_name(k: &[char]) -> (r: Option<String>)
    ensures
        match r {
            Some(g) => key_grapheme(k@) == Some(g@),
            None => key_grapheme(k@) is None,
        },
{
    let c: Option<char> = if is_name(k, "space") {
        Some(' ')
    } else if is_name(k, "comma") {
        Some(',')
    } else if is_name(k, "period") {
        Some('.')
    } else if is_name(k, "apostrophe") {
        Some('\'')
    } else if is_name(k, "semicolon") {
        Some(';')
    } else if is_name(k, "minus") {
        Some('-')
    } else if is_name(k, "equal") {
        Some('=')
    } else if is_name(k, "slash") {
        Some('/')
    } else if is_name(k, "backslash") {
        Some('\\')
    } else {
        None
    };
    match c {
        Some(c) => {
            let v: Vec<char> = vec![c];
            Some(string_from(v.as_slice()))
        },
        None => {
            if k.len() == 1 && k[0] <= '\u{7f}' {
                Some(string_from(k))
            } else {
                None
            }
        },
    }
}

/// A KeyRecs key label as a grapheme: the label is trimmed, must not be
/// empty, and is lowercased (KeyRecs writes `Space`, `Shift`, ...).
pub open spec fn keyrecs_key_spec(key: Seq<char>) -> Option<Seq<char>> {
    let k = trim(key);
    if k.len() == 0 {
        None
    } else {
        key_grapheme(ascii_lower(k))
    }
}

/// Map a KeyRecs key label to the grapheme it types, if it types one.
pub fn map_key_to_grapheme(key: &str) -> (r: Option<String>)
    ensures
        match r {
            Some(g) => keyrecs_key_spec(key@) == Some(g@),
            None => keyrecs_key_spec(key@) is None,
        },
{
    let k = trim_chars(chars_of(key).as_slice());
    if k.len() == 0 {
        return None;
    }
    let kl = to_ascii_lower(k.as_slice());
    grapheme_of_key_name(kl.as_slice())
}

/// The characters of an optional string.
pub open spec fn opt_view(s: Option<&str>) -> Option<Seq<char>> {
    match s {
        Some(t) => Some(t@),
        None => None,
    }
}

/// The text of one free-text row: its digraph phrase and its note.
pub struct FreeTextEntry {
    pub phrase: String,
    pub note: String,
}

/// The phrase and note of a free-text row from its trimmed fields, when the
/// row is usable as far as its text goes: a non-empty participant, a session
/// that parses as `u32`, non-empty key labels that both map to graphemes.
pub open spec fn free_text_entry_spec(
    participant: Option<Seq<char>>,
    session: Option<Seq<char>>,
    key1: Option<Seq<char>>,
    key2: Option<Seq<char>>,
) -> Option<(Seq<char>, Seq<char>)> {
    match (participant, session, key1, key2) {
        (Some(p), Some(s), Some(k1), Some(k2)) => if p.len() == 0 || k1.len() == 0 || k2.len()
            == 0 {
            None
        } else {
            match (parse_unsigned(s, u32::MAX as nat), keyrecs_key_spec(k1), keyrecs_key_spec(k2)) {
                (Some(sv), Some(a), Some(b)) => Some(
                    (
                        a + b,
                        "participant="@ + p + " session="@ + decimal(sv),
                    ),
                ),
                _ => None,
            }
        },
        _ => None,
    }
}

/// The phrase and note of a free-text row from its trimmed `participant`,
/// `session`, `key1` and `key2` fields (`None` for a missing column). The
/// `DD.key1.key2` time itself is read by the caller.
pub fn free_text_entry(
    participant: Option<&str>,
    session: Option<&str>,
    key1: Option<&str>,
    key2: Option<&str>,
) -> (r: Option<FreeTextEntry>)
    ensures
        match r {
            Some(e) => free_text_entry_spec(
                opt_view(participant),
                opt_view(session),
                opt_view(key1),
                opt_view(key2),
            ) == Some((e.phrase@, e.note@)),
            None => free_text_entry_spec(
                opt_view(participant),
                opt_view(session),
                opt_view(key1),
                opt_view(key2),
            ) is None,
        },
{
    let (p, s, k1, k2) = match (participant, session, key1, key2) {
        (Some(p), Some(s), Some(k1), Some(k2)) => (p, s, k1, k2),
        _ => return None,
    };
    let pc = chars_of(p);
    if pc.len() == 0 || chars_of(k1).len() == 0 || chars_of(k2).len() == 0 {
        return None;
    }
    let sv = match parse_u32(chars_of(s).as_slice()) {
        Some(v) => v,
        None => return None,
    };
    let a = match map_key_to_grapheme(k1) {
        Some(a) => a,
        None => return None,
    };
    let b = match map_key_to_grapheme(k2) {
        Some(b) => b,
        None => return None,
    };
    let mut phrase: Vec<char> = Vec::new();
    append_chars(&mut phrase, chars_of(a.as_str()).as_slice());
    append_chars(&mut phrase, chars_of(b.as_str()).as_slice());
    let mut note: Vec<char> = Vec::new();
    append_chars(&mut note, chars_of("participant=").as_slice());
    append_chars(&mut note, pc.as_slice());
    append_chars(&mut note, chars_of(" session=").as_slice());
    append_chars(&mut note, decimal_chars(sv as u64).as_slice());
    Some(FreeTextEntry { phrase: string_from(phrase.as_slice()), note: string_from(note.as_slice()) })
}


/// The trimmed field of a record under the column named `name` (headers
/// compared after trimming, the last of equal names), when there is one.
pub open spec fn field(hs: Seq<Seq<char>>, rec: Seq<Seq<char>>, name: Seq<char>) -> Option<Seq<char>> {
    match last_header(hs.map_values(|h: Seq<char>| trim(h)), name) {
        Some(i) => if i < rec.len() {
            Some(trim(rec[i]))
        } else {
            None
        },
        None => None,
    }
}

/// The phrase, note and DD time text of one record of the free-text table,
/// when the record is usable as far as its text goes.
pub open spec fn free_text_row_spec(hs: Seq<Seq<char>>, rec: Seq<Seq<char>>) -> Option<
    (Seq<char>, Seq<char>, Seq<char>),
> {
    match (
        field(hs, rec, "DD.key1.key2"@),
        free_text_entry_spec(
            field(hs, rec, "participant"@),
            field(hs, rec, "session"@),
            field(hs, rec, "key1"@),
            field(hs, rec, "key2"@),
        ),
    ) {
        (Some(dd), Some((phrase, note))) => Some((phrase, note, dd)),
        _ => None,
    }
}

/// The usable rows of the free-text table, in order.
pub open spec fn free_text_rows_spec(hs: Seq<Seq<char>>, recs: Seq<Seq<Seq<char>>>) -> Seq<
    (Seq<char>, Seq<char>, Seq<char>),
>
    decreases recs.len(),
{
    if recs.len() == 0 {
        Seq::empty()
    } else {
        let prev = free_text_rows_spec(hs, recs.drop_last());
        match free_text_row_spec(hs, recs.last()) {
            Some(row) => prev.push(row),
            None => prev,
        }
    }
}

/// One usable free-text row: phrase, note, and the DD time in seconds as
/// written.
pub struct FreeTextRow {
    pub phrase: String,
    pub note: String,
    pub dd_text: String,
}

/// Rows by value.
pub open spec fn free_text_rows_view(v: Seq<FreeTextRow>) -> Seq<(Seq<char>, Seq<char>, Seq<char>)> {
    v.map_values(|r: FreeTextRow| (r.phrase@, r.note@, r.dd_text@))
}

/// Whether `c` is the column found for `name` among the trimmed headers.
pub open spec fn col_found(c: Option<usize>, ths: Seq<Seq<char>>, name: Seq<char>) -> bool {
    match c {
        Some(k) => last_header(ths, name) == Some(k as int),
        None => last_header(ths, name) is None,
    }
}

proof fn lemma_field(
    hs: Seq<Seq<char>>,
    rec: Seq<Seq<char>>,
    name: Seq<char>,
    c: Option<usize>,
    got: Option<String>,
)
    requires
        col_found(c, hs.map_values(|h: Seq<char>| trim(h)), name),
        match c {
            Some(i) => if i < rec.len() {
                got matches Some(s) && s@ == trim(rec[i as int])
            } else {
                got is None
            },
            None => got is None,
        },
    ensures
        field(hs, rec, name) == match got {
            Some(s) => Some(s@),
            None => None::<Seq<char>>,
        },
{
}

/// The trimmed field at column `col` of a record, if any.
fn field_at(rec: &Vec<String>, col: Option<usize>) -> (r: Option<String>)
    ensures
        match col {
            Some(i) => if i < rec@.len() {
                r matches Some(s) && s@ == trim(rec@[i as int]@)
            } else {
                r is None
            },
            None => r is None,
        },
{
    match col {
        Some(i) => if i < rec.len() {
            Some(string_from(trim_chars(chars_of(rec[i].as_str()).as_slice()).as_slice()))
        } else {
            None
        },
        None => None,
    }
}

fn as_str_opt(s: &Option<String>) -> (r: Option<&str>)
    ensures
        opt_view(r) == match s {
            Some(t) => Some(t@),
            None => None::<Seq<char>>,
        },
{
    match s {
        Some(t) => Some(t.as_str()),
        None => None,
    }
}

/// Read the KeyRecs free-text CSV table: the usable rows, with their DD
/// time text; the caller parses each time and keeps the row when it is a
/// finite, non-negative number.
pub fn free_text_rows(bytes: &[u8]) -> (r: Result<Vec<FreeTextRow>, csv::Error>)
    ensures
        match csv_table_of(bytes@) {
            None => r is Err,
            Some((hs, recs)) => r matches Ok(v) && free_text_rows_view(v@) == free_text_rows_spec(hs, recs),
        },
{
    let (headers, records) = read_csv(bytes)?;
    let ghost hs = strings_view(headers@);
    let ghost recs = records_view(records@);
    let ghost ths = hs.map_values(|h: Seq<char>| trim(h));
    assert(header_names(headers@, true) =~= ths);
    proof {
        reveal_strlit("DD.key1.key2");
        reveal_strlit("participant");
        reveal_strlit("session");
        reveal_strlit("key1");
        reveal_strlit("key2");
    }
    let c_dd = column_index(headers.as_slice(), chars_of("DD.key1.key2").as_slice(), true);
    let c_p = column_index(headers.as_slice(), chars_of("participant").as_slice(), true);
    let c_s = column_index(headers.as_slice(), chars_of("session").as_slice(), true);
    let c_k1 = column_index(headers.as_slice(), chars_of("key1").as_slice(), true);
    let c_k2 = column_index(headers.as_slice(), chars_of("key2").as_slice(), true);
    let mut out: Vec<FreeTextRow> = Vec::new();
    for i in 0..records.len()
        invariant
            hs == strings_view(headers@),
            recs == records_view(records@),
            ths == hs.map_values(|h: Seq<char>| trim(h)),
            col_found(c_dd, ths, "DD.key1.key2"@),
            col_found(c_p, ths, "participant"@),
            col_found(c_s, ths, "session"@),
            col_found(c_k1, ths, "key1"@),
            col_found(c_k2, ths, "key2"@),
            free_text_rows_view(out@) == free_text_rows_spec(hs, recs.take(i as int)),
    {
        let rec = &records[i];
        let ghost rv = recs[i as int];
        assert(rv == strings_view(rec@));
        assert(recs.take(i + 1).drop_last() =~= recs.take(i as int));
        let dd = field_at(rec, c_dd);
        let p = field_at(rec, c_p);
        let se = field_at(rec, c_s);
        let k1 = field_at(rec, c_k1);
        let k2 = field_at(rec, c_k2);
        proof {
            lemma_field(hs, rv, "DD.key1.key2"@, c_dd, dd);
            lemma_field(hs, rv, "participant"@, c_p, p);
            lemma_field(hs, rv, "session"@, c_s, se);
            lemma_field(hs, rv, "key1"@, c_k1, k1);
            lemma_field(hs, rv, "key2"@, c_k2, k2);
        }
        let entry = free_text_entry(as_str_opt(&p), as_str_opt(&se), as_str_opt(&k1), as_str_opt(&k2));
        match (dd, entry) {
            (Some(d), Some(e)) => {
                let ghost prev = out@;
                let ghost row = (e.phrase@, e.note@, d@);
                out.push(FreeTextRow { phrase: e.phrase, note: e.note, dd_text: d });
                assert(free_text_rows_view(out@) =~= free_text_rows_view(prev).push(row));
            },
            _ => {},
        }
    }
    assert(recs.take(records@.len() as int) =~= recs);
    Ok(out)
}

} // verus!
