//! GREYC web-based keystroke dynamics dataset (archived). The archive holds
//! per-session directories with `password.txt` or `passphrase.txt` (the
//! string typed) and
//! `p_pp.txt` (keypress-to-keypress delays of adjacent characters, in ms).
use vstd::prelude::*;
use vstd::hash_map::StringHashMap;
use crate::text::{
    chars_of, contains, contains_sub, lines_of, rsplit_once, rsplit_once_chars, split_lines,
    starts_with, string_from, trim, trim_chars,
};
use crate::import::keyrecs::is_name;
use crate::import::formats::{entries_view, tar_gz_entries, tar_gz_read_of, utf8_text};
use vstd::utf8::{decode_utf8, valid_utf8};

verus! {

/// Where the archive is kept.
pub fn default_url() -> (r: &'static str)
    ensures
        r@
            == "https://web.archive.org/web/20181101124951/http://www.ecole.ensicaen.fr/~rosenber/pub/webkeystroke.tar.gz"@,
{
    "https://web.archive.org/web/20181101124951/http://www.ecole.ensicaen.fr/~rosenber/pub/webkeystroke.tar.gz"
}

/// Which parts of the archive are imported.
#[derive(Debug, Clone)]
pub struct ImportConfig {
    pub include_passwords: bool,
    pub include_passphrases: bool,
    pub include_impostor: bool,
    pub max_rows: Option<usize>,
}

impl Default for ImportConfig {
    fn default() -> (r: Self)
        ensures
            r.include_passwords,
            r.include_passphrases,
            r.include_impostor,
            r.max_rows is None,
    {
        ImportConfig {
            include_passwords: true,
            include_passphrases: true,
            include_impostor: true,
            max_rows: None,
        }
    }
}

/// The two files of a session that are read.
#[derive(Debug, Clone, Copy, PartialEq, Eq, Structural)]
pub enum SessionFile {
    /// `password.txt` or `passphrase.txt`: the text typed.
    Text,
    /// `p_pp.txt`: the delays, one per line.
    Timings,
}

/// A file of the archive that contributes to a session.
pub struct ArchiveEntry {
    /// The session directory: the path up to its last `/`.
    pub session_dir: String,
    pub file: SessionFile,
    /// Whether the file lies in the passwords tree (else the passphrases tree).
    pub password_tree: bool,
}

/// The session directory, file and tree of an archive path, when the
/// configuration imports it: under `output_numpy/passwords/` or
/// `output_numpy/passphrases/` as included, outside any `/impostor/`
/// directory unless impostors are included, and named `password.txt`,
/// `passphrase.txt` or `p_pp.txt`.
pub open spec fn archive_entry_spec(path: Seq<char>, cfg: ImportConfig) -> Option<
    (Seq<char>, SessionFile, bool),
> {
    let pw = "output_numpy/passwords/"@.is_prefix_of(path);
    let pp = "output_numpy/passphrases/"@.is_prefix_of(path);
    if !"output_numpy/"@.is_prefix_of(path) {
        None
    } else if pw && !cfg.include_passwords {
        None
    } else if pp && !cfg.include_passphrases {
        None
    } else if !(pw || pp) {
        None
    } else if !cfg.include_impostor && contains_sub(path, "/impostor/"@) {
        None
    } else {
        match rsplit_once(path, '/') {
            Some((dir, file)) => if file == "password.txt"@ || file == "passphrase.txt"@ {
                Some((dir, SessionFile::Text, pw))
            } else if file == "p_pp.txt"@ {
                Some((dir, SessionFile::Timings, pw))
            } else {
                None
            },
            None => None,
        }
    }
}

/// Decide whether an archive path is read, and as what.
pub fn archive_entry(path: &str, cfg: &ImportConfig) -> (r: Option<ArchiveEntry>)
    ensures
        match r {
            Some(e) => archive_entry_spec(path@, *cfg) == Some(
                (e.session_dir@, e.file, e.password_tree),
            ),
            None => archive_entry_spec(path@, *cfg) is None,
        },
{
    let p = chars_of(path);
    if !starts_with(p.as_slice(), chars_of("output_numpy/").as_slice()) {
        return None;
    }
    let pw = starts_with(p.as_slice(), chars_of("output_numpy/passwords/").as_slice());
    let pp = starts_with(p.as_slice(), chars_of("output_numpy/passphrases/").as_slice());
    if pw && !cfg.include_passwords {
        return None;
    }
    if pp && !cfg.include_passphrases {
        return None;
    }
    if !(pw || pp) {
        return None;
    }
    if !cfg.include_impostor && contains(p.as_slice(), chars_of("/impostor/").as_slice()) {
        return None;
    }
    match rsplit_once_chars(p.as_slice(), '/') {
        Some((dir, file)) => {
            let kind = if is_name(file.as_slice(), "password.txt") || is_name(
                file.as_slice(),
                "passphrase.txt",
            ) {
                SessionFile::Text
            } else if is_name(file.as_slice(), "p_pp.txt") {
                SessionFile::Timings
            } else {
                return None;
            };
            Some(ArchiveEntry { session_dir: string_from(dir.as_slice()), file: kind, password_tree: pw })
        },
        None => None,
    }
}

/// The source label of a row from the given tree.
pub fn source_label(password_tree: bool) -> (r: &'static str)
    ensures
        password_tree ==> r@ == "greyc_web_password"@,
        !password_tree ==> r@ == "greyc_web_passphrase"@,
{
    if password_tree {
        "greyc_web_password"
    } else {
        "greyc_web_passphrase"
    }
}

/// `s` without its trailing `\n` and `\r` characters.
pub open spec fn strip_line_ends(s: Seq<char>) -> Seq<char>
    decreases s.len(),
{
    if s.len() > 0 && (s.last() == '\n' || s.last() == '\r') {
        strip_line_ends(s.drop_last())
    } else {
        s
    }
}

/// The typed text of a `password.txt` or `passphrase.txt` file: its contents without trailing
/// line endings.
pub fn password_text(contents: &str) -> (r: String)
    ensures
        r@ == strip_line_ends(contents@),
{
    let cs = chars_of(contents);
    let mut k: usize = cs.len();
    assert(cs@.take(k as int) =~= cs@);
    while k > 0 && (cs[k - 1] == '\n' || cs[k - 1] == '\r')
        invariant
            k <= cs@.len(),
            cs@ == contents@,
            strip_line_ends(contents@) == strip_line_ends(cs@.take(k as int)),
        decreases k,
    {
        assert(cs@.take(k as int).drop_last() =~= cs@.take(k - 1));
        k = k - 1;
    }
    let mut out: Vec<char> = Vec::new();
    for i in 0..k
        invariant
            k <= cs@.len(),
            out@ == cs@.take(i as int),
    {
        out.push(cs[i]);
        assert(cs@.take(i + 1) =~= cs@.take(i as int).push(cs@[i as int]));
    }
    string_from(out.as_slice())
}

/// The trimmed non-blank lines of `s`, in order.
pub open spec fn value_lines_spec(lines: Seq<Seq<char>>) -> Seq<Seq<char>>
    decreases lines.len(),
{
    if lines.len() == 0 {
        Seq::empty()
    } else {
        let prev = value_lines_spec(lines.drop_last());
        let t = trim(lines.last());
        if t.len() > 0 {
            prev.push(t)
        } else {
            prev
        }
    }
}

/// The values of a `p_pp.txt` file: its lines trimmed, blank lines skipped;
/// the caller parses each as a number.
pub fn value_lines(contents: &str) -> (r: Vec<String>)
    ensures
        r@.map_values(|s: String| s@) == value_lines_spec(lines_of(contents@)),
{
    let lines = split_lines(chars_of(contents).as_slice());
    let ghost ls = lines_of(contents@);
    let mut out: Vec<String> = Vec::new();
    for i in 0..lines.len()
        invariant
            lines@.map_values(|l: Vec<char>| l@) == ls,
            ls == lines_of(contents@),
            out@.map_values(|s: String| s@) == value_lines_spec(ls.take(i as int)),
    {
        assert(ls.take(i + 1).drop_last() =~= ls.take(i as int));
        assert(ls[i as int] == lines@[i as int]@);
        let t = trim_chars(lines[i].as_slice());
        if t.len() > 0 {
            let ghost old_out = out@;
            out.push(string_from(t.as_slice()));
            assert(out@.map_values(|s: String| s@) =~= old_out.map_values(|s: String| s@).push(
                t@,
            ));
        }
    }
    assert(ls.take(lines@.len() as int) =~= ls);
    out
}


/// What has been read of one session so far: the typed text, the delay
/// values, and the source label and note of the last file read.
pub struct BundleState {
    pub text: Option<Seq<char>>,
    pub values: Option<Seq<Seq<char>>>,
    pub source: Option<Seq<char>>,
    pub note: Option<Seq<char>>,
}

/// A session nothing has been read of.
pub open spec fn empty_bundle() -> BundleState {
    BundleState { text: None, values: None, source: None, note: None }
}

/// One session being assembled.
pub struct SessionBundle {
    pub dir: String,
    pub text: Option<String>,
    pub values: Option<Vec<String>>,
    pub source: Option<String>,
    pub note: Option<String>,
}

/// Optional strings by value.
pub open spec fn opt_str(s: Option<String>) -> Option<Seq<char>> {
    match s {
        Some(t) => Some(t@),
        None => None,
    }
}

/// Optional lists of strings by value.
pub open spec fn opt_strs(v: Option<Vec<String>>) -> Option<Seq<Seq<char>>> {
    match v {
        Some(t) => Some(t@.map_values(|x: String| x@)),
        None => None,
    }
}

impl SessionBundle {
    /// The bundle by value.
    pub open spec fn state(&self) -> BundleState {
        BundleState {
            text: opt_str(self.text),
            values: opt_strs(self.values),
            source: opt_str(self.source),
            note: opt_str(self.note),
        }
    }
}

/// The last position of the session `dir`.
pub open spec fn bundle_pos(s: Seq<SessionBundle>, dir: Seq<char>) -> Option<int>
    decreases s.len(),
{
    if s.len() == 0 {
        None
    } else if s.last().dir@ == dir {
        Some(s.len() - 1)
    } else {
        bundle_pos(s.drop_last(), dir)
    }
}

/// A session complete with both files: text, delay values, source and note.
pub struct ReadySession {
    pub text: String,
    pub values: Vec<String>,
    pub source: Option<String>,
    pub note: Option<String>,
}

/// The state of a session after reading a file of it: the text of a
/// `password.txt` or the values of a `p_pp.txt` replace those read before,
/// and the source label and note become those of this file.
pub open spec fn after_file(
    b: BundleState,
    file: SessionFile,
    password_tree: bool,
    path: Seq<char>,
    contents: Seq<char>,
) -> BundleState {
    BundleState {
        text: if file == SessionFile::Text {
            Some(strip_line_ends(contents))
        } else {
            b.text
        },
        values: if file == SessionFile::Timings {
            Some(value_lines_spec(lines_of(contents)))
        } else {
            b.values
        },
        source: Some(
            if password_tree {
                "greyc_web_password"@
            } else {
                "greyc_web_passphrase"@
            },
        ),
        note: Some(path),
    }
}

/// Sessions being assembled from the files of the archive, in any order.
pub struct SessionBundles {
    sessions: Vec<SessionBundle>,
    index: StringHashMap<usize>,
}

proof fn lemma_bundle_pos(s: Seq<SessionBundle>, dir: Seq<char>)
    ensures
        bundle_pos(s, dir) matches Some(i) ==> 0 <= i < s.len() && s[i].dir@ == dir,
        bundle_pos(s, dir) is None ==> forall|i: int| 0 <= i < s.len() ==> (#[trigger] s[i]).dir@ != dir,
    decreases s.len(),
{
    if s.len() > 0 {
        lemma_bundle_pos(s.drop_last(), dir);
        if s.last().dir@ != dir {
            assert forall|i: int| 0 <= i < s.len() - 1 implies s[i] == s.drop_last()[i] by {}
        }
    }
}

proof fn lemma_bundle_pos_same_dirs(s: Seq<SessionBundle>, t: Seq<SessionBundle>, dir: Seq<char>)
    requires
        s.len() == t.len(),
        forall|i: int| 0 <= i < s.len() ==> (#[trigger] s[i]).dir@ == t[i].dir@,
    ensures
        bundle_pos(s, dir) == bundle_pos(t, dir),
    decreases s.len(),
{
    if s.len() > 0 {
        assert(s.last().dir@ == t.last().dir@);
        assert forall|i: int| 0 <= i < s.len() - 1 implies (#[trigger] s.drop_last()[i]).dir@
            == t.drop_last()[i].dir@ by {
            assert(s.drop_last()[i] == s[i]);
            assert(t.drop_last()[i] == t[i]);
        }
        lemma_bundle_pos_same_dirs(s.drop_last(), t.drop_last(), dir);
    }
}

impl SessionBundles {
    /// The index maps each session directory to its position.
    pub closed spec fn wf(&self) -> bool {
        &&& forall|d: Seq<char>| #![trigger self.index@.contains_key(d)]
            self.index@.contains_key(d) <==> bundle_pos(self.sessions@, d) is Some
        &&& forall|d: Seq<char>| #![trigger self.index@.contains_key(d)]
            self.index@.contains_key(d) ==> bundle_pos(self.sessions@, d) == Some(self.index@[d] as int)
    }

    /// What has been read of the session `dir`.
    pub closed spec fn state_of(&self, dir: Seq<char>) -> BundleState {
        match bundle_pos(self.sessions@, dir) {
            Some(i) => self.sessions@[i].state(),
            None => empty_bundle(),
        }
    }

    /// No session read yet.
    pub fn new() -> (r: SessionBundles)
        ensures
            r.wf(),
            forall|dir: Seq<char>| #[trigger] r.state_of(dir) == empty_bundle(),
    {
        SessionBundles { sessions: Vec::new(), index: StringHashMap::new() }
    }

    /// Read one file of the archive (`path`, with the entry that
    /// `archive_entry` gave for it, and its text). When its session then has
    /// both its text and its values, they are taken out of the session and
    /// returned, with the session's source label and note.
    pub fn add(&mut self, path: &str, entry: &ArchiveEntry, contents: &str) -> (r: Option<
        ReadySession,
    >)
        requires
            old(self).wf(),
        ensures
            final(self).wf(),
            ({
                let dir = entry.session_dir@;
                let b = after_file(
                    old(self).state_of(dir),
                    entry.file,
                    entry.password_tree,
                    path@,
                    contents@,
                );
                &&& forall|d: Seq<char>|
                    d != dir ==> #[trigger] final(self).state_of(d) == old(self).state_of(d)
                &&& if b.text is Some && b.values is Some {
                    &&& r matches Some(ready) && Some(ready.text@) == b.text && Some(
                        ready.values@.map_values(|x: String| x@),
                    ) == b.values && opt_str(ready.source) == b.source && opt_str(ready.note)
                        == b.note
                    &&& final(self).state_of(dir) == BundleState {
                        text: None,
                        values: None,
                        ..b
                    }
                } else {
                    r is None && final(self).state_of(dir) == b
                }
            }),
    {
        let ghost old_s = self.sessions@;
        let ghost dir = entry.session_dir@;
        let ghost b = after_file(
            self.state_of(dir),
            entry.file,
            entry.password_tree,
            path@,
            contents@,
        );
        let i = match self.find_bundle(entry.session_dir.as_str()) {
            Some(i) => {
                proof {
                    lemma_bundle_pos(old_s, dir);
                }
                i
            },
            None => {
                let ghost old_index = self.index@;
                let n = self.sessions.len();
                self.index.insert(entry.session_dir.clone(), n);
                self.sessions.push(
                    SessionBundle {
                        dir: entry.session_dir.clone(),
                        text: None,
                        values: None,
                        source: None,
                        note: None,
                    },
                );
                proof {
                    let s1 = self.sessions@;
                    assert(s1.drop_last() =~= old_s);
                    assert forall|d: Seq<char>| d != dir implies #[trigger] bundle_pos(s1, d)
                        == bundle_pos(old_s, d) by {}
                    assert(bundle_pos(s1, dir) == Some(old_s.len() as int));
                    assert(!old_index.contains_key(dir));
                }
                n
            },
        };
        let ghost s1 = self.sessions@;
        assert(self.state_of(dir) == old(self).state_of(dir));
        assert(forall|d: Seq<char>| #[trigger] bundle_pos(s1, d) == bundle_pos(old_s, d) || d == dir);
        assert(bundle_pos(s1, dir) == Some(i as int));
        let mut cur = SessionBundle { dir: String::new(), text: None, values: None, source: None, note: None };
        self.sessions.set_and_swap(i, &mut cur);
        let SessionBundle { dir: cdir, text, values, source: _, note: _ } = cur;
        let text = match entry.file {
            SessionFile::Text => Some(password_text(contents)),
            SessionFile::Timings => text,
        };
        let values = match entry.file {
            SessionFile::Timings => Some(value_lines(contents)),
            SessionFile::Text => values,
        };
        let label = chars_of(source_label(entry.password_tree));
        let pc = chars_of(path);
        let keep_source = Some(string_from(label.as_slice()));
        let keep_note = Some(string_from(pc.as_slice()));
        proof {
            reveal_strlit("greyc_web_password");
            reveal_strlit("greyc_web_passphrase");
        }
        let (nb, r) = match (text, values) {
            (Some(t), Some(v)) => (
                SessionBundle { dir: cdir, text: None, values: None, source: keep_source, note: keep_note },
                Some(
                    ReadySession {
                        text: t,
                        values: v,
                        source: Some(string_from(label.as_slice())),
                        note: Some(string_from(pc.as_slice())),
                    },
                ),
            ),
            (text, values) => (
                SessionBundle { dir: cdir, text, values, source: keep_source, note: keep_note },
                None,
            ),
        };
        let ghost nbs = nb.state();
        self.sessions.set(i, nb);
        proof {
            let s2 = self.sessions@;
            assert(s2 =~= s1.update(i as int, s2[i as int]));
            assert forall|j: int| 0 <= j < s1.len() implies (#[trigger] s1[j]).dir@ == s2[j].dir@ by {}
            assert forall|d: Seq<char>| #[trigger] bundle_pos(s2, d) == bundle_pos(s1, d) by {
                lemma_bundle_pos_same_dirs(s1, s2, d);
            }
            assert forall|d: Seq<char>| d != dir implies #[trigger] self.state_of(d) == old(self).state_of(
                d,
            ) by {
                lemma_bundle_pos(s1, d);
                lemma_bundle_pos(old_s, d);
                if let Some(j) = bundle_pos(s1, d) {
                    assert(j != i);
                    assert(s2[j] == s1[j]);
                }
            }
        }
        r
    }

    /// The position of the session `dir`.
    fn find_bundle(&self, dir: &str) -> (r: Option<usize>)
        requires
            self.wf(),
        ensures
            match r {
                Some(i) => bundle_pos(self.sessions@, dir@) == Some(i as int),
                None => bundle_pos(self.sessions@, dir@) is None,
            },
    {
        match self.index.get(dir) {
            Some(i) => {
                assert(self.index@.contains_key(dir@));
                Some(*i)
            },
            None => {
                assert(!self.index@.contains_key(dir@));
                None
            },
        }
    }
}


/// What reading one accepted file of the archive gives: the values of a
/// `p_pp.txt` (else `None`), and the session it completed, if any.
pub struct SessionStep {
    pub values: Option<Vec<String>>,
    pub ready: Option<ReadySession>,
}

/// A step by value.
pub struct StepView {
    pub values: Option<Seq<Seq<char>>>,
    pub ready: Option<BundleState>,
}

/// A completed session by value.
pub open spec fn ready_view(r: ReadySession) -> BundleState {
    BundleState {
        text: Some(r.text@),
        values: Some(r.values@.map_values(|x: String| x@)),
        source: opt_str(r.source),
        note: opt_str(r.note),
    }
}

/// A step by value.
pub open spec fn step_view(s: SessionStep) -> StepView {
    StepView {
        values: opt_strs(s.values),
        ready: match s.ready {
            Some(r) => Some(ready_view(r)),
            None => None,
        },
    }
}

/// Steps by value.
pub open spec fn steps_view(v: Seq<SessionStep>) -> Seq<StepView> {
    v.map_values(|s: SessionStep| step_view(s))
}

/// Reading the archive's entries in order: the state of every session after
/// them, and one step for each entry that the configuration accepts (see
/// `archive_entry_spec`), whose contents are read as UTF-8 text. A
/// `p_pp.txt` step gives its values; a step after which its session has
/// both text and values gives that session (see `after_file`), whose text
/// and values are then cleared. `None` where an accepted entry is not valid
/// UTF-8.
pub open spec fn sessions_after(entries: Seq<(Seq<char>, Seq<u8>)>, cfg: ImportConfig) -> Option<
    (spec_fn(Seq<char>) -> BundleState, Seq<StepView>),
>
    decreases entries.len(),
{
    if entries.len() == 0 {
        Some((|d: Seq<char>| empty_bundle(), Seq::empty()))
    } else {
        match sessions_after(entries.drop_last(), cfg) {
            None => None,
            Some(prev) => {
                let st = prev.0;
                let path = entries.last().0;
                let bytes = entries.last().1;
                match archive_entry_spec(path, cfg) {
                    None => Some(prev),
                    Some(acc) => if !valid_utf8(bytes) {
                        None
                    } else {
                        let dir = acc.0;
                        let contents = decode_utf8(bytes);
                        let b = after_file(st(dir), acc.1, acc.2, path, contents);
                        let values = if acc.1 == SessionFile::Timings {
                            Some(value_lines_spec(lines_of(contents)))
                        } else {
                            None
                        };
                        if b.text is Some && b.values is Some {
                            let done = BundleState { text: None, values: None, ..b };
                            Some(
                                (
                                    |d: Seq<char>|
                                        if d == dir {
                                            done
                                        } else {
                                            st(d)
                                        },
                                    prev.1.push(StepView { values, ready: Some(b) }),
                                ),
                            )
                        } else {
                            Some(
                                (
                                    |d: Seq<char>|
                                        if d == dir {
                                            b
                                        } else {
                                            st(d)
                                        },
                                    prev.1.push(StepView { values, ready: None }),
                                ),
                            )
                        }
                    },
                }
            },
        }
    }
}

/// Why the GREYC archive could not be read.
#[derive(Debug)]
pub enum GreycError {
    /// Decompressing or reading the tar archive failed.
    Archive(std::io::Error),
    /// The accepted entry at this position is not valid UTF-8 text.
    NotUtf8 { entry: usize },
}

/// The steps of an archive's entries, in order, up to the first error; the
/// error, if any, stops the reading.
pub struct GreycSessions {
    pub steps: Vec<SessionStep>,
    pub error: Option<GreycError>,
}

/// What reading the entries `es` gives: with no error, the steps of
/// `sessions_after` for all of them; else the error names the first accepted
/// entry that is not valid UTF-8, and the steps are those of the entries
/// before it.
pub open spec fn sessions_read(
    es: Seq<(Seq<char>, Seq<u8>)>,
    cfg: ImportConfig,
    steps: Seq<SessionStep>,
    error: Option<GreycError>,
) -> bool {
    match error {
        None => sessions_after(es, cfg) is Some && steps_view(steps) == sessions_after(es, cfg).unwrap().1,
        Some(GreycError::NotUtf8 { entry }) => {
            &&& entry < es.len()
            &&& sessions_after(es.take(entry as int), cfg) is Some
            &&& steps_view(steps) == sessions_after(es.take(entry as int), cfg).unwrap().1
            &&& archive_entry_spec(es[entry as int].0, cfg) is Some
            &&& !valid_utf8(es[entry as int].1)
        },
        Some(GreycError::Archive(_)) => false,
    }
}

/// Assemble the sessions of the archive's entries, in order (see
/// `sessions_after`), stopping at the first accepted entry that is not valid
/// UTF-8.
pub fn greyc_sessions(entries: &[(String, Vec<u8>)], cfg: &ImportConfig) -> (r: GreycSessions)
    ensures
        sessions_read(entries_view(entries@), *cfg, r.steps@, r.error),
{
    let ghost ev = entries_view(entries@);
    let mut bundles = SessionBundles::new();
    let mut out: Vec<SessionStep> = Vec::new();
    proof {
        assert(ev.take(0) =~= Seq::<(Seq<char>, Seq<u8>)>::empty());
    }
    for i in 0..entries.len()
        invariant
            ev == entries_view(entries@),
            bundles.wf(),
            sessions_after(ev.take(i as int), *cfg) is Some,
            forall|d: Seq<char>| #[trigger] bundles.state_of(d) == (sessions_after(ev.take(i as int), *cfg).unwrap().0)(d),
            steps_view(out@) == sessions_after(ev.take(i as int), *cfg).unwrap().1,
    {
        let ghost pre = ev.take(i as int);
        let ghost prev = sessions_after(pre, *cfg).unwrap();
        proof {
            assert(ev.take(i + 1).drop_last() =~= pre);
            assert(ev.take(i + 1).last() == ev[i as int]);
            assert(ev[i as int] == (entries@[i as int].0@, entries@[i as int].1@));
        }
        let path = &entries[i].0;
        let bytes = &entries[i].1;
        match archive_entry(path.as_str(), cfg) {
            None => {},
            Some(e) => {
                let contents = match utf8_text(bytes.as_slice()) {
                    Ok(t) => t,
                    Err(_) => {
                        return GreycSessions { steps: out, error: Some(GreycError::NotUtf8 { entry: i }) };
                    },
                };
                let values = match e.file {
                    SessionFile::Timings => Some(value_lines(contents.as_str())),
                    SessionFile::Text => None,
                };
                let ghost old_out = out@;
                let ready = bundles.add(path.as_str(), &e, contents.as_str());
                out.push(SessionStep { values, ready });
                proof {
                    let cur = sessions_after(ev.take(i + 1), *cfg).unwrap();
                    assert(steps_view(out@) =~= steps_view(old_out).push(step_view(out@.last())));
                    assert forall|d: Seq<char>| #[trigger] bundles.state_of(d) == (cur.0)(d) by {}
                }
            },
        }
    }
    proof {
        assert(ev.take(entries@.len() as int) =~= ev);
    }
    GreycSessions { steps: out, error: None }
}

/// Read the GREYC archive `archive` (gzip-compressed tar) entry by entry and
/// assemble its sessions, stopping at the first error: the steps of the
/// entries read (see `greyc_sessions`), then `GreycError::NotUtf8` where an
/// accepted entry is not valid UTF-8, else `GreycError::Archive` where the
/// archive could not be read to its end.
pub fn read_greyc_archive(archive: &[u8], cfg: &ImportConfig) -> (r: GreycSessions)
    ensures
        ({
            let (es, complete) = tar_gz_read_of(archive@);
            match r.error {
                Some(GreycError::Archive(_)) => !complete && sessions_read(es, *cfg, r.steps@, None),
                _ => sessions_read(es, *cfg, r.steps@, r.error) && (r.error is None ==> complete),
            }
        }),
{
    let (entries, failure) = tar_gz_entries(archive);
    let mut r = greyc_sessions(entries.as_slice(), cfg);
    if r.error.is_none() {
        if let Some(e) = failure {
            r.error = Some(GreycError::Archive(e));
        }
    }
    r
}

} // verus!
