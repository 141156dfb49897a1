//! Wordlists and phrase assembly for passphrase generation.
use vstd::prelude::*;
use crate::text::{chars_of, lines_of, split_lines, string_from, trim, trim_chars};
use crate::textprep::{scrub, scrub_spec, word_char};

verus! {

/// Settings for sampling passphrases from a wordlist.
#[derive(Debug, Clone)]
pub struct GenerateConfig {
    pub words: usize,
    pub separator: String,
    pub samples: usize,
    pub top_k: usize,
    pub min_word_len: usize,
    pub max_word_len: usize,
    pub ascii_lower_only: bool,
}

impl Default for GenerateConfig {
    fn default() -> (r: Self)
        ensures
            r.words == 4,
            r.separator@ == seq![' '],
            r.samples == 10_000,
            r.top_k == 20,
            r.min_word_len == 3,
            r.max_word_len == 12,
            r.ascii_lower_only,
    {
        let sep = string_from(&[' ']);
        GenerateConfig {
            words: 4,
            separator: sep,
            samples: 10_000,
            top_k: 20,
            min_word_len: 3,
            max_word_len: 12,
            ascii_lower_only: true,
        }
    }
}

/// The words that passphrases are drawn from.
pub struct Wordlist {
    pub total_words_in_file: usize,
    pub words: Vec<String>,
}

/// Why a wordlist could not be built.
#[derive(Debug, Clone, PartialEq, Eq)]
pub enum GenerateError {
    /// The list of words was empty.
    EmptyWordlist,
    /// Every word was filtered out; `total_words_in_file` entries were read.
    NoUsableWords { total_words_in_file: usize },
}

/// A wordlist made of the given words, which must not be empty.
pub fn wordlist_from_vec(words: Vec<String>) -> (r: Result<Wordlist, GenerateError>)
    ensures
        words@.len() == 0 ==> r == Err::<Wordlist, GenerateError>(GenerateError::EmptyWordlist),
        words@.len() > 0 ==> (r matches Ok(wl) && wl.words@ == words@ && wl.total_words_in_file
            == words@.len()),
{
    if words.len() == 0 {
        return Err(GenerateError::EmptyWordlist);
    }
    let n = words.len();
    Ok(Wordlist { total_words_in_file: n, words })
}

/// Whether every character is an ASCII lowercase letter.
pub open spec fn ascii_lower_word(s: Seq<char>) -> bool {
    forall|i: int| 0 <= i < s.len() ==> 'a' <= #[trigger] s[i] <= 'z'
}

/// Whether `s` consists of the letters `a` to `z` only (no spaces or hyphens).
pub fn is_ascii_lower_word(s: &str) -> (r: bool)
    ensures
        r == ascii_lower_word(s@),
{
    let cs = chars_of(s);
    for i in 0..cs.len()
        invariant
            cs@ == s@,
            forall|j: int| 0 <= j < i ==> 'a' <= #[trigger] cs@[j] <= 'z',
    {
        if !('a' <= cs[i] && cs[i] <= 'z') {
            return false;
        }
    }
    true
}

/// Whether a wordlist line holds an entry: not blank once trimmed and not a
/// `#` comment.
pub open spec fn is_entry(line: Seq<char>) -> bool {
    let w = trim(line);
    w.len() > 0 && w[0] != '#'
}

/// Whether a scrubbed word passes the length and alphabet filters. Scrubbed
/// words are ASCII, so their length in characters is their length in bytes.
pub open spec fn word_passes(w: Seq<char>, cfg: GenerateConfig) -> bool {
    cfg.min_word_len <= w.len() <= cfg.max_word_len && (!cfg.ascii_lower_only
        || ascii_lower_word(w))
}

/// The number of entries among `lines`.
pub open spec fn entry_count(lines: Seq<Seq<char>>) -> nat
    decreases lines.len(),
{
    if lines.len() == 0 {
        0
    } else if is_entry(lines.last()) {
        entry_count(lines.drop_last()) + 1
    } else {
        entry_count(lines.drop_last())
    }
}

/// The usable words of `lines`, in order: each entry scrubbed, kept when it
/// passes the filters.
pub open spec fn usable_words(lines: Seq<Seq<char>>, cfg: GenerateConfig) -> Seq<Seq<char>>
    decreases lines.len(),
{
    if lines.len() == 0 {
        Seq::empty()
    } else {
        let prev = usable_words(lines.drop_last(), cfg);
        let w = scrub_spec(trim(lines.last()));
        if is_entry(lines.last()) && word_passes(w, cfg) {
            prev.push(w)
        } else {
            prev
        }
    }
}

/// Every usable word of a wordlist file is between `min_word_len` and
/// `max_word_len` characters long, and with `ascii_lower_only` holds only the
/// letters `a` to `z`.
pub proof fn usable_words_within_limits(lines: Seq<Seq<char>>, cfg: GenerateConfig)
    ensures
        forall|i: int|
            0 <= i < usable_words(lines, cfg).len() ==> cfg.min_word_len <= (#[trigger] usable_words(
                lines,
                cfg,
            )[i]).len() <= cfg.max_word_len,
        cfg.ascii_lower_only ==> forall|i: int, j: int|
            0 <= i < usable_words(lines, cfg).len() && 0 <= j < usable_words(lines, cfg)[i].len() ==> 'a'
                <= #[trigger] usable_words(lines, cfg)[i][j] <= 'z',
    decreases lines.len(),
{
    if lines.len() > 0 {
        usable_words_within_limits(lines.drop_last(), cfg);
        let prev = usable_words(lines.drop_last(), cfg);
        let ws = usable_words(lines, cfg);
        assert forall|i: int| 0 <= i < ws.len() implies cfg.min_word_len <= (#[trigger] ws[i]).len()
            <= cfg.max_word_len && (cfg.ascii_lower_only ==> ascii_lower_word(ws[i])) by {
            if i < prev.len() {
                assert(ws[i] == prev[i]);
            }
        }
    }
}

/// Build a wordlist from the text of a wordlist file: one entry per line,
/// blank lines and `#` comments skipped, each entry scrubbed and kept when its
/// length lies within `[min_word_len, max_word_len]` and, with
/// `ascii_lower_only`, it holds only the letters `a` to `z`.
pub fn wordlist_from_text(text: &str, cfg: &GenerateConfig) -> (r: Result<
    Wordlist,
    GenerateError,
>)
    ensures
        ({
            let lines = lines_of(text@);
            let ws = usable_words(lines, *cfg);
            &&& ws.len() == 0 ==> r == Err::<Wordlist, GenerateError>(
                GenerateError::NoUsableWords { total_words_in_file: entry_count(lines) as usize },
            )
            &&& ws.len() > 0 ==> (r matches Ok(wl) && wl.words@.map_values(|w: String| w@) == ws
                && wl.total_words_in_file == entry_count(lines))
        }),
        r matches Ok(wl) ==> forall|i: int|
            0 <= i < wl.words@.len() ==> cfg.min_word_len <= (#[trigger] wl.words@[i])@.len()
                <= cfg.max_word_len,
{
    let cs = chars_of(text);
    let lines = split_lines(cs.as_slice());
    let ghost ls = lines_of(text@);
    let mut words: Vec<String> = Vec::new();
    let mut total: usize = 0;
    for i in 0..lines.len()
        invariant
            lines@.map_values(|l: Vec<char>| l@) == ls,
            ls == lines_of(text@),
            words@.map_values(|w: String| w@) == usable_words(ls.take(i as int), *cfg),
            total == entry_count(ls.take(i as int)),
            total <= i,
    {
        assert(ls.take(i + 1).drop_last() =~= ls.take(i as int));
        assert(ls[i as int] == lines@[i as int]@);
        let w = trim_chars(lines[i].as_slice());
        if w.len() > 0 && w[0] != '#' {
            total = total + 1;
            let ws = string_from(w.as_slice());
            let sw = scrub(ws.as_str());
            let ghost sv = sw@;
            let n = chars_of(sw.as_str()).len();
            let passes = cfg.min_word_len <= n && n <= cfg.max_word_len && (!cfg.ascii_lower_only
                || is_ascii_lower_word(sw.as_str()));
            if passes {
                let ghost old_words = words@;
                words.push(sw);
                assert(words@.map_values(|w: String| w@) =~= old_words.map_values(
                    |w: String| w@,
                ).push(sv));
            }
        }
    }
    assert(ls.take(lines@.len() as int) =~= ls);
    if words.len() == 0 {
        return Err(GenerateError::NoUsableWords { total_words_in_file: total });
    }
    proof {
        usable_words_within_limits(ls, *cfg);
        assert forall|i: int| 0 <= i < words@.len() implies cfg.min_word_len <= (
        #[trigger] words@[i])@.len() <= cfg.max_word_len by {
            assert(words@.map_values(|w: String| w@)[i] == words@[i]@);
        }
    }
    Ok(Wordlist { total_words_in_file: total, words })
}

/// Join character sequences with a separator between neighbours.
pub open spec fn joined(parts: Seq<Seq<char>>, sep: Seq<char>) -> Seq<char>
    decreases parts.len(),
{
    if parts.len() == 0 {
        Seq::empty()
    } else if parts.len() == 1 {
        parts[0]
    } else {
        joined(parts.drop_last(), sep) + sep + parts.last()
    }
}

/// The words joined by `sep` (`[String]::join`), as a generated phrase.
pub fn join_words(parts: &[String], sep: &str) -> (r: String)
    ensures
        r@ == joined(parts@.map_values(|w: String| w@), sep@),
{
    let sep_chars = chars_of(sep);
    let ghost ps = parts@.map_values(|w: String| w@);
    let mut out: Vec<char> = Vec::new();
    for i in 0..parts.len()
        invariant
            ps == parts@.map_values(|w: String| w@),
            sep_chars@ == sep@,
            out@ == joined(ps.take(i as int), sep@),
    {
        assert(ps.take(i + 1).drop_last() =~= ps.take(i as int));
        let w = chars_of(parts[i].as_str());
        if i > 0 {
            for j in 0..sep_chars.len()
                invariant
                    out@ == joined(ps.take(i as int), sep@) + sep@.take(j as int),
                    sep_chars@ == sep@,
            {
                out.push(sep_chars[j]);
                assert(sep@.take(j + 1) =~= sep@.take(j as int).push(sep@[j as int]));
            }
            assert(sep@.take(sep@.len() as int) =~= sep@);
        }
        let ghost before = out@;
        for j in 0..w.len()
            invariant
                out@ == before + w@.take(j as int),
        {
            out.push(w[j]);
            assert(w@.take(j + 1) =~= w@.take(j as int).push(w@[j as int]));
        }
        assert(w@.take(w@.len() as int) =~= w@);
        assert(ps[i as int] == w@);
        if i == 0 {
            assert(ps.take(1) =~= seq![w@]);
            assert(out@ =~= w@);
        } else {
            assert(out@ =~= joined(ps.take(i as int), sep@) + sep@ + w@);
        }
    }
    assert(ps.take(parts@.len() as int) =~= ps);
    string_from(out.as_slice())
}

} // verus!
