//! CMU LASER-2012, "Free vs. Transcribed Text for Keystroke-Dynamics
//! Evaluations": character-labelled keydown-keydown (DD) features for many
//! digraphs. Only digraphs whose two keys both map to a single-character
//! grapheme are imported.
use vstd::prelude::*;
use crate::import::formats::{all_utf8, entries_view, last_text, selected_entries, zip_entries_named};
use crate::import::keyrecs::{grapheme_of_key_name, is_name, key_grapheme};
use vstd::utf8::decode_utf8;
use crate::text::{
    append_chars, ascii_lower, chars_eq, chars_of, contains, contains_sub, decimal, decimal_chars,
    lines_of, parse_u32, parse_unsigned, rsplit_once, rsplit_once_chars, split_lines, split_ws,
    starts_with, string_from, to_ascii_lower, tokens_of, trim, trim_chars,
};

verus! {

/// Where the LASER-2012 archive is published.
pub fn default_url() -> (r: &'static str)
    ensures
        r@ == "https://www.cs.cmu.edu/~keystroke/laser-2012/DSL-Free-vs-Transcribed.zip"@,
{
    "https://www.cs.cmu.edu/~keystroke/laser-2012/DSL-Free-vs-Transcribed.zip"
}

/// A LASER key name as a grapheme: trimmed, lowercased, and reduced to the
/// part after its last `.` (`shift.t` names `t`).
pub open spec fn laser_key_spec(key: Seq<char>) -> Option<Seq<char>> {
    let k = ascii_lower(trim(key));
    let name = match rsplit_once(k, '.') {
        Some((_, tail)) => tail,
        None => k,
    };
    key_grapheme(name)
}

/// Map a LASER key name to the grapheme it types, if it types one.
pub fn map_key_to_grapheme(key: &str) -> (r: Option<String>)
    ensures
        match r {
            Some(g) => laser_key_spec(key@) == Some(g@),
            None => laser_key_spec(key@) is None,
        },
{
    let k = to_ascii_lower(trim_chars(chars_of(key).as_slice()).as_slice());
    let name = match rsplit_once_chars(k.as_slice(), '.') {
        Some((_, tail)) => tail,
        None => k,
    };
    grapheme_of_key_name(name.as_slice())
}

/// The session kind named on a session-map line: free or transcribed text.
pub open spec fn session_kind_of(line: Seq<char>) -> Seq<char> {
    let rest = ascii_lower(line);
    if contains_sub(rest, " - free"@) {
        "free"@
    } else if contains_sub(rest, " - trans"@) {
        "trans"@
    } else {
        "unknown"@
    }
}

/// The `(user, session, kind)` entry of one session-map line, such as
/// `s019  1 session.id "Free vs Transcribed - Runaway - Trans"`; blank lines
/// and the `user` header give none.
pub open spec fn session_line_spec(line: Seq<char>) -> Option<(Seq<char>, u32, Seq<char>)> {
    let l = trim(line);
    let toks = tokens_of(l);
    if l.len() == 0 || "user"@.is_prefix_of(l) || toks.len() < 2 {
        None
    } else {
        match parse_unsigned(toks[1], u32::MAX as nat) {
            Some(s) => Some((toks[0], s as u32, session_kind_of(l))),
            None => None,
        }
    }
}

/// The position of the entry for `(user, session)`, if any.
pub open spec fn session_pos(m: Seq<(Seq<char>, u32, Seq<char>)>, user: Seq<char>, session: u32) -> Option<int>
    decreases m.len(),
{
    if m.len() == 0 {
        None
    } else if m.last().0 == user && m.last().1 == session {
        Some(m.len() - 1)
    } else {
        session_pos(m.drop_last(), user, session)
    }
}

/// Insert or overwrite the kind of `(user, session)`, as a map insert does.
pub open spec fn session_put(
    m: Seq<(Seq<char>, u32, Seq<char>)>,
    e: (Seq<char>, u32, Seq<char>),
) -> Seq<(Seq<char>, u32, Seq<char>)> {
    match session_pos(m, e.0, e.1) {
        Some(i) => m.update(i, e),
        None => m.push(e),
    }
}

/// The session map of all lines: one entry per `(user, session)`, in order
/// of first appearance, holding the kind of its last line.
pub open spec fn session_map_spec(lines: Seq<Seq<char>>) -> Seq<(Seq<char>, u32, Seq<char>)>
    decreases lines.len(),
{
    if lines.len() == 0 {
        Seq::empty()
    } else {
        let m = session_map_spec(lines.drop_last());
        match session_line_spec(lines.last()) {
            Some(e) => session_put(m, e),
            None => m,
        }
    }
}

/// A session map by value.
pub open spec fn sessions_view(m: Seq<(String, u32, String)>) -> Seq<(Seq<char>, u32, Seq<char>)> {
    m.map_values(|e: (String, u32, String)| (e.0@, e.1, e.2@))
}

proof fn lemma_session_pos_bounds(m: Seq<(Seq<char>, u32, Seq<char>)>, user: Seq<char>, session: u32)
    ensures
        session_pos(m, user, session) matches Some(i) ==> 0 <= i < m.len() && m[i].0 == user
            && m[i].1 == session,
        session_pos(m, user, session) is None ==> forall|i: int|
            0 <= i < m.len() ==> !(#[trigger] m[i].0 == user && m[i].1 == session),
    decreases m.len(),
{
    if m.len() > 0 {
        lemma_session_pos_bounds(m.drop_last(), user, session);
        if !(m.last().0 == user && m.last().1 == session) {
            assert forall|i: int| 0 <= i < m.len() - 1 implies m[i] == m.drop_last()[i] by {}
        }
    }
}

/// Find the entry for `(user, session)`.
fn find_session(m: &Vec<(String, u32, String)>, user: &[char], session: u32) -> (r: Option<usize>)
    ensures
        match r {
            Some(i) => session_pos(sessions_view(m@), user@, session) == Some(i as int),
            None => session_pos(sessions_view(m@), user@, session) is None,
        },
{
    let ghost mv = sessions_view(m@);
    let mut k: usize = m.len();
    assert(mv.take(k as int) =~= mv);
    while k > 0
        invariant
            k <= m@.len(),
            mv == sessions_view(m@),
            session_pos(mv, user@, session) == session_pos(mv.take(k as int), user@, session),
        decreases k,
    {
        let ghost t = mv.take(k as int);
        assert(t.drop_last() =~= mv.take(k - 1));
        assert(t.last() == mv[k - 1]);
        if m[k - 1].1 == session && chars_eq(chars_of(m[k - 1].0.as_str()).as_slice(), user) {
            return Some(k - 1);
        }
        k = k - 1;
    }
    assert(mv.take(0) =~= Seq::<(Seq<char>, u32, Seq<char>)>::empty());
    None
}

/// The session entry of one line.
fn session_line(line: &[char]) -> (r: Option<(String, u32, String)>)
    ensures
        match r {
            Some(e) => session_line_spec(line@) == Some((e.0@, e.1, e.2@)),
            None => session_line_spec(line@) is None,
        },
{
    let l = trim_chars(line);
    let toks = split_ws(l.as_slice());
    let ghost tv = toks@.map_values(|t: Vec<char>| t@);
    if l.len() == 0 || starts_with(l.as_slice(), chars_of("user").as_slice()) || toks.len() < 2 {
        return None;
    }
    assert(tv[1] == toks@[1]@);
    assert(tv[0] == toks@[0]@);
    let s = match parse_u32(toks[1].as_slice()) {
        Some(s) => s,
        None => return None,
    };
    let rest = to_ascii_lower(l.as_slice());
    let kind = if contains(rest.as_slice(), chars_of(" - free").as_slice()) {
        "free"
    } else if contains(rest.as_slice(), chars_of(" - trans").as_slice()) {
        "trans"
    } else {
        "unknown"
    };
    let kv = chars_of(kind);
    Some((string_from(toks[0].as_slice()), s, string_from(kv.as_slice())))
}

/// Read `data/SessionMap.txt`: the kind (`free`, `trans` or `unknown`) of
/// each `(user, session)`, a later line overriding an earlier one.
pub fn parse_session_map(text: &str) -> (r: Vec<(String, u32, String)>)
    ensures
        sessions_view(r@) == session_map_spec(lines_of(text@)),
{
    let lines = split_lines(chars_of(text).as_slice());
    let ghost ls = lines_of(text@);
    let mut m: Vec<(String, u32, String)> = Vec::new();
    for i in 0..lines.len()
        invariant
            lines@.map_values(|l: Vec<char>| l@) == ls,
            ls == lines_of(text@),
            sessions_view(m@) == session_map_spec(ls.take(i as int)),
    {
        assert(ls.take(i + 1).drop_last() =~= ls.take(i as int));
        assert(ls[i as int] == lines@[i as int]@);
        match session_line(lines[i].as_slice()) {
            Some(e) => {
                let ghost ev = (e.0@, e.1, e.2@);
                let ghost old_m = m@;
                let uc = chars_of(e.0.as_str());
                proof {
                    lemma_session_pos_bounds(sessions_view(m@), ev.0, ev.1);
                }
                match find_session(&m, uc.as_slice(), e.1) {
                    Some(j) => {
                        m.set(j, e);
                        assert(sessions_view(m@) =~= sessions_view(old_m).update(j as int, ev));
                    },
                    None => {
                        m.push(e);
                        assert(sessions_view(m@) =~= sessions_view(old_m).push(ev));
                    },
                }
            },
            None => {},
        }
    }
    assert(ls.take(lines@.len() as int) =~= ls);
    m
}

/// The kind recorded for `(user, session)`, or `unknown`.
pub open spec fn session_kind_spec(m: Seq<(Seq<char>, u32, Seq<char>)>, user: Seq<char>, session: u32) -> Seq<char> {
    match session_pos(m, user, session) {
        Some(i) => m[i].2,
        None => "unknown"@,
    }
}

/// Look up the kind of `(user, session)` in a session map.
pub fn session_kind(m: &Vec<(String, u32, String)>, user: &str, session: u32) -> (r: String)
    ensures
        r@ == session_kind_spec(sessions_view(m@), user@, session),
{
    let uc = chars_of(user);
    proof {
        lemma_session_pos_bounds(sessions_view(m@), user@, session);
    }
    match find_session(m, uc.as_slice(), session) {
        Some(i) => {
            assert(sessions_view(m@)[i as int] == (m@[i as int].0@, m@[i as int].1, m@[i as int].2@));
            string_from(chars_of(m[i].2.as_str()).as_slice())
        },
        None => string_from(chars_of("unknown").as_slice()),
    }
}

/// The fields of one digraph line of `data/TimingFeatures-DD.txt`.
pub struct DdLine {
    pub subject: String,
    pub session: u32,
    pub screen: u32,
    /// The two graphemes of the digraph.
    pub phrase: String,
    /// The DD time in seconds, as written.
    pub time_text: String,
}

/// The fields of a DD line numbered `lineno` (from 0), when they can be used:
/// not blank, not the header line, at least seven columns, session and screen
/// numbers that parse as `u32`, and two keys that map to graphemes.
pub open spec fn dd_line_spec(lineno: usize, line: Seq<char>) -> Option<
    (Seq<char>, u32, u32, Seq<char>, Seq<char>),
> {
    let l = trim(line);
    let cols = tokens_of(l);
    if l.len() == 0 {
        None
    } else if lineno == 0 && contains_sub(ascii_lower(l), "subject"@) && contains_sub(l, "key1"@) {
        None
    } else if cols.len() < 7 {
        None
    } else {
        match (
            parse_unsigned(cols[1], u32::MAX as nat),
            parse_unsigned(cols[2], u32::MAX as nat),
            laser_key_spec(cols[4]),
            laser_key_spec(cols[5]),
        ) {
            (Some(session), Some(screen), Some(a), Some(b)) => Some(
                (cols[0], session as u32, screen as u32, a + b, cols[6]),
            ),
            _ => None,
        }
    }
}

/// Read one line of `data/TimingFeatures-DD.txt`; the caller parses the time
/// and keeps the row when it is a finite, non-negative number.
pub fn dd_line(lineno: usize, line: &str) -> (r: Option<DdLine>)
    ensures
        match r {
            Some(d) => dd_line_spec(lineno, line@) == Some(
                (d.subject@, d.session, d.screen, d.phrase@, d.time_text@),
            ),
            None => dd_line_spec(lineno, line@) is None,
        },
{
    let l = trim_chars(chars_of(line).as_slice());
    if l.len() == 0 {
        return None;
    }
    if lineno == 0 && contains(to_ascii_lower(l.as_slice()).as_slice(), chars_of("subject").as_slice())
        && contains(l.as_slice(), chars_of("key1").as_slice()) {
        return None;
    }
    let cols = split_ws(l.as_slice());
    let ghost cv = cols@.map_values(|t: Vec<char>| t@);
    if cols.len() < 7 {
        return None;
    }
    assert(cv[0] == cols@[0]@);
    assert(cv[1] == cols@[1]@);
    assert(cv[2] == cols@[2]@);
    assert(cv[4] == cols@[4]@);
    assert(cv[5] == cols@[5]@);
    assert(cv[6] == cols@[6]@);
    let session = parse_u32(cols[1].as_slice());
    let screen = parse_u32(cols[2].as_slice());
    let k1 = string_from(cols[4].as_slice());
    let k2 = string_from(cols[5].as_slice());
    let a = map_key_to_grapheme(k1.as_str());
    let b = map_key_to_grapheme(k2.as_str());
    match (session, screen, a, b) {
        (Some(session), Some(screen), Some(a), Some(b)) => {
            let mut phrase: Vec<char> = Vec::new();
            append_chars(&mut phrase, chars_of(a.as_str()).as_slice());
            append_chars(&mut phrase, chars_of(b.as_str()).as_slice());
            Some(
                DdLine {
                    subject: string_from(cols[0].as_slice()),
                    session,
                    screen,
                    phrase: string_from(phrase.as_slice()),
                    time_text: string_from(cols[6].as_slice()),
                },
            )
        },
        _ => None,
    }
}

/// The source label of a row of the given session kind.
pub open spec fn dd_source_spec(kind: Seq<char>) -> Seq<char> {
    "cmu_laser2012_"@ + kind
}

/// The note of a DD row: its subject, session and screen.
pub open spec fn dd_note_spec(subject: Seq<char>, session: u32, screen: u32) -> Seq<char> {
    "subject="@ + subject + " session="@ + decimal(session as nat) + " screen="@ + decimal(
        screen as nat,
    )
}

/// The source label and note of a DD row, the kind looked up in the
/// session map.
pub fn dd_labels(d: &DdLine, sessions: &Vec<(String, u32, String)>) -> (r: (String, String))
    ensures
        r.0@ == dd_source_spec(session_kind_spec(sessions_view(sessions@), d.subject@, d.session)),
        r.1@ == dd_note_spec(d.subject@, d.session, d.screen),
{
    let kind = session_kind(sessions, d.subject.as_str(), d.session);
    let mut source: Vec<char> = Vec::new();
    append_chars(&mut source, chars_of("cmu_laser2012_").as_slice());
    append_chars(&mut source, chars_of(kind.as_str()).as_slice());
    let mut note: Vec<char> = Vec::new();
    append_chars(&mut note, chars_of("subject=").as_slice());
    append_chars(&mut note, chars_of(d.subject.as_str()).as_slice());
    append_chars(&mut note, chars_of(" session=").as_slice());
    append_chars(&mut note, decimal_chars(d.session as u64).as_slice());
    append_chars(&mut note, chars_of(" screen=").as_slice());
    append_chars(&mut note, decimal_chars(d.screen as u64).as_slice());
    (string_from(source.as_slice()), string_from(note.as_slice()))
}


/// Why the texts of a LASER archive could not be read.
#[derive(Debug)]
pub enum LaserError {
    /// The archive, or one of the files read, could not be opened or read.
    Zip(zip::result::ZipError),
    /// A file read is not UTF-8 text.
    Utf8(std::str::Utf8Error),
    /// No `data/TimingFeatures-DD.txt` in the archive.
    MissingTimings,
    /// No `data/SessionMap.txt` in the archive.
    MissingSessionMap,
}

/// The name that the DD timings file ends with.
pub open spec fn timings_suffix() -> Seq<char> {
    "data/TimingFeatures-DD.txt"@
}

/// The name that the session map ends with.
pub open spec fn session_map_suffix() -> Seq<char> {
    "data/SessionMap.txt"@
}

/// Read the DD timings text and the session map text out of the LASER
/// archive. Every entry whose name ends with one of the two file names is
/// read, and the last of each is used.
pub fn archive_texts(zip_bytes: &[u8]) -> (r: Result<(String, String), LaserError>)
    ensures
        match selected_entries(zip_bytes@, timings_suffix(), false) {
            None => r matches Err(LaserError::Zip(_)),
            Some(dd) => if !all_utf8(dd) {
                r matches Err(LaserError::Utf8(_))
            } else {
                match selected_entries(zip_bytes@, session_map_suffix(), false) {
                    None => r matches Err(LaserError::Zip(_)),
                    Some(sm) => if !all_utf8(sm) {
                        r matches Err(LaserError::Utf8(_))
                    } else if dd.len() == 0 {
                        r matches Err(LaserError::MissingTimings)
                    } else if sm.len() == 0 {
                        r matches Err(LaserError::MissingSessionMap)
                    } else {
                        r matches Ok((a, b)) && a@ == decode_utf8(dd.last().1) && b@ == decode_utf8(
                            sm.last().1,
                        )
                    },
                }
            },
        },
{
    let dd_name = chars_of("data/TimingFeatures-DD.txt");
    let sm_name = chars_of("data/SessionMap.txt");
    let dd = match zip_entries_named(zip_bytes, dd_name.as_slice(), false) {
        Ok(v) => v,
        Err(e) => {
            return Err(LaserError::Zip(e));
        },
    };
    let dd_text = match last_text(&dd) {
        Ok(t) => t,
        Err(e) => {
            return Err(LaserError::Utf8(e));
        },
    };
    let sm = match zip_entries_named(zip_bytes, sm_name.as_slice(), false) {
        Ok(v) => v,
        Err(e) => {
            return Err(LaserError::Zip(e));
        },
    };
    let sm_text = match last_text(&sm) {
        Ok(t) => t,
        Err(e) => {
            return Err(LaserError::Utf8(e));
        },
    };
    match (dd_text, sm_text) {
        (None, _) => Err(LaserError::MissingTimings),
        (Some(_), None) => Err(LaserError::MissingSessionMap),
        (Some(a), Some(b)) => Ok((a, b)),
    }
}

/// One imported digraph: its two graphemes, the DD time in seconds as
/// written, its source label and its note.
pub struct LaserRow {
    pub phrase: String,
    pub time_text: String,
    pub source: String,
    pub note: String,
}

/// The row of DD line number `lineno`, labelled from the session map.
pub open spec fn laser_row_spec(
    lineno: int,
    line: Seq<char>,
    sessions: Seq<(Seq<char>, u32, Seq<char>)>,
) -> Option<(Seq<char>, Seq<char>, Seq<char>, Seq<char>)> {
    match dd_line_spec(lineno as usize, line) {
        Some((subject, session, screen, phrase, time)) => Some(
            (
                phrase,
                time,
                dd_source_spec(session_kind_spec(sessions, subject, session)),
                dd_note_spec(subject, session, screen),
            ),
        ),
        None => None,
    }
}

/// The rows of all DD lines, in order.
pub open spec fn laser_rows_spec(
    lines: Seq<Seq<char>>,
    sessions: Seq<(Seq<char>, u32, Seq<char>)>,
) -> Seq<(Seq<char>, Seq<char>, Seq<char>, Seq<char>)>
    decreases lines.len(),
{
    if lines.len() == 0 {
        Seq::empty()
    } else {
        let prev = laser_rows_spec(lines.drop_last(), sessions);
        match laser_row_spec(lines.len() - 1, lines.last(), sessions) {
            Some(row) => prev.push(row),
            None => prev,
        }
    }
}

/// Rows by value.
pub open spec fn laser_rows_view(v: Seq<LaserRow>) -> Seq<(Seq<char>, Seq<char>, Seq<char>, Seq<char>)> {
    v.map_values(|r: LaserRow| (r.phrase@, r.time_text@, r.source@, r.note@))
}

/// The usable digraph rows of the DD timings text, each labelled with the
/// kind of its session from the session map text; the caller parses each
/// time and keeps the row when it is a finite, non-negative number.
pub fn laser_rows(dd_text: &str, session_map_text: &str) -> (r: Vec<LaserRow>)
    ensures
        laser_rows_view(r@) == laser_rows_spec(
            lines_of(dd_text@),
            session_map_spec(lines_of(session_map_text@)),
        ),
{
    let sessions = parse_session_map(session_map_text);
    let ghost sv = sessions_view(sessions@);
    let lines = split_lines(chars_of(dd_text).as_slice());
    let ghost ls = lines_of(dd_text@);
    let mut out: Vec<LaserRow> = Vec::new();
    for j in 0..lines.len()
        invariant
            sv == sessions_view(sessions@),
            sv == session_map_spec(lines_of(session_map_text@)),
            lines@.map_values(|l: Vec<char>| l@) == ls,
            ls == lines_of(dd_text@),
            laser_rows_view(out@) == laser_rows_spec(ls.take(j as int), sv),
    {
        assert(ls.take(j + 1).drop_last() =~= ls.take(j as int));
        assert(ls[j as int] == lines@[j as int]@);
        let line = string_from(lines[j].as_slice());
        match dd_line(j, line.as_str()) {
            Some(d) => {
                let (source, note) = dd_labels(&d, &sessions);
                let ghost prev = out@;
                let ghost row = (d.phrase@, d.time_text@, source@, note@);
                out.push(LaserRow { phrase: d.phrase, time_text: d.time_text, source, note });
                assert(laser_rows_view(out@) =~= laser_rows_view(prev).push(row));
            },
            None => {},
        }
    }
    assert(ls.take(lines@.len() as int) =~= ls);
    out
}

} // verus!
