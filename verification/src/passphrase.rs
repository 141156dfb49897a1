//! Word-level helpers for planning and sampling passphrases: corpus
//! entries and counts, vowel counting, casing, style presets and phrase
//! assembly.
use vstd::prelude::*;
use crate::generate::ascii_lower_word;
use crate::generate::is_ascii_lower_word;
use crate::text::{
    append_chars, ascii_upper, chars_eq, chars_of, lines_of, parse_u64, parse_unsigned, split_lines, split_ws, string_from,
    to_ascii_upper, tokens_of, trim, trim_chars,
};
use crate::styles::style_case_spec;
use crate::textprep::{scrub, scrub_spec};
use crate::unicode::{char_uppercase, uppercase_of};
use vstd::hash_map::StringHashMap;

verus! {

/// Whether `c` counts as a vowel (`y` included).
pub open spec fn vowel(c: char) -> bool {
    c == 'a' || c == 'e' || c == 'i' || c == 'o' || c == 'u' || c == 'y'
}

/// The number of vowels in `s`.
pub open spec fn vowel_count(s: Seq<char>) -> nat
    decreases s.len(),
{
    if s.len() == 0 {
        0
    } else {
        vowel_count(s.drop_last()) + if vowel(s.last()) {
            1nat
        } else {
            0nat
        }
    }
}

/// The vowel count of a word is the number of its positions that hold one of
/// `a e i o u y`: the word's characters kept when they are one of those six.
pub proof fn vowel_count_counts_aeiouy(s: Seq<char>)
    ensures
        vowel_count(s) == s.filter(
            |c: char| c == 'a' || c == 'e' || c == 'i' || c == 'o' || c == 'u' || c == 'y',
        ).len(),
    decreases s.len(),
{
    reveal(Seq::filter);
    if s.len() > 0 {
        vowel_count_counts_aeiouy(s.drop_last());
    }
}

/// The number of ASCII vowels `a e i o u y` in a word.
pub fn count_vowels(s: &str) -> (r: usize)
    ensures
        r == vowel_count(s@),
        r == s@.filter(|c: char| c == 'a' || c == 'e' || c == 'i' || c == 'o' || c == 'u' || c == 'y').len(),
{
    proof {
        vowel_count_counts_aeiouy(s@);
    }
    let cs = chars_of(s);
    let mut n: usize = 0;
    for i in 0..cs.len()
        invariant
            cs@ == s@,
            n == vowel_count(cs@.take(i as int)),
            n <= i,
    {
        assert(cs@.take(i + 1).drop_last() =~= cs@.take(i as int));
        let c = cs[i];
        if c == 'a' || c == 'e' || c == 'i' || c == 'o' || c == 'u' || c == 'y' {
            n = n + 1;
        }
    }
    assert(cs@.take(cs@.len() as int) =~= cs@);
    n
}

/// A word with its first character uppercased (by the full Unicode mapping)
/// and the rest unchanged.
pub open spec fn title_case(s: Seq<char>) -> Seq<char> {
    if s.len() == 0 {
        s
    } else {
        uppercase_of(s[0]) + s.drop_first()
    }
}

/// Uppercase the first character of a word and keep the rest.
pub fn title_case_ascii(word: &str) -> (r: String)
    ensures
        r@ == title_case(word@),
{
    let cs = chars_of(word);
    if cs.len() == 0 {
        return String::new();
    }
    let up = char_uppercase(cs[0]);
    let mut out: Vec<char> = Vec::new();
    for i in 0..up.len()
        invariant
            out@ == up@.take(i as int),
    {
        out.push(up[i]);
    }
    assert(up@.take(up@.len() as int) =~= up@);
    for i in 1..cs.len()
        invariant
            cs@ == word@,
            cs@.len() >= 1,
            out@ == up@ + cs@.subrange(1, i as int),
    {
        out.push(cs[i]);
        assert(cs@.subrange(1, i + 1) =~= cs@.subrange(1, i as int).push(cs@[i as int]));
    }
    assert(cs@.subrange(1, cs@.len() as int) =~= cs@.drop_first());
    string_from(out.as_slice())
}

/// Word casing applied while sampling.
#[derive(Debug, Clone, Copy, PartialEq, Eq, Structural)]
pub enum CaseMode {
    Lower,
    Title,
    Upper,
    /// TitleCase each word with probability 1/2.
    RandomTitle,
}

/// The cased word; for `RandomTitle` the lowest bit of a random `u32`
/// decides whether the word is title-cased.
pub open spec fn apply_case_spec(word: Seq<char>, mode: CaseMode, coin: u32) -> Seq<char> {
    match mode {
        CaseMode::Lower => word,
        CaseMode::Upper => ascii_upper(word),
        CaseMode::Title => title_case(word),
        CaseMode::RandomTitle => if coin % 2 == 1 {
            title_case(word)
        } else {
            word
        },
    }
}

/// Apply a casing mode to a word. `coin` is the next random `u32`, read only
/// by `RandomTitle`.
pub fn apply_case(word: &str, mode: CaseMode, coin: u32) -> (r: String)
    ensures
        r@ == apply_case_spec(word@, mode, coin),
{
    match mode {
        CaseMode::Lower => string_from(chars_of(word).as_slice()),
        CaseMode::Upper => string_from(to_ascii_upper(chars_of(word).as_slice()).as_slice()),
        CaseMode::Title => title_case_ascii(word),
        CaseMode::RandomTitle => {
            if coin % 2 == 1 {
                title_case_ascii(word)
            } else {
                string_from(chars_of(word).as_slice())
            }
        },
    }
}

/// Presets for sampling passphrases.
#[derive(Debug, Clone, Copy, PartialEq, Eq, Structural)]
pub enum SampleStyle {
    /// The settings as given.
    Custom,
    /// Words separated by spaces, lower-case.
    Spaces,
    /// Words separated by hyphens, lower-case.
    Hyphens,
    /// Random digit separators between words.
    Numbers,
    /// Random digit or symbol separators between words.
    NumbersSymbols,
    /// Title-cased words run together, then two digits.
    LoginTitle2Digits,
    /// Title-cased words run together, then one of `! ? _ -`.
    LoginTitleEndPunct,
}

/// How sampled phrases are put together: the separator between words (used
/// where no gap pattern is set), the patterns that random gaps, prefix and
/// suffix are drawn from, and the casing of words.
pub struct SampleSettings {
    pub separator: String,
    pub gap_regex: Option<String>,
    pub case: CaseMode,
    pub prefix_regex: Option<String>,
    pub suffix_regex: Option<String>,
}

/// Settings by value: separator, gap pattern, case, prefix and suffix patterns.
pub open spec fn settings_view(s: SampleSettings) -> (
    Seq<char>,
    Option<Seq<char>>,
    CaseMode,
    Option<Seq<char>>,
    Option<Seq<char>>,
) {
    (
        s.separator@,
        match s.gap_regex {
            Some(g) => Some(g@),
            None => None,
        },
        s.case,
        match s.prefix_regex {
            Some(g) => Some(g@),
            None => None,
        },
        match s.suffix_regex {
            Some(g) => Some(g@),
            None => None,
        },
    )
}

/// A pattern unless one is set already.
pub open spec fn or_pattern(p: Option<Seq<char>>, default: Seq<char>) -> Option<Seq<char>> {
    match p {
        Some(x) => Some(x),
        None => Some(default),
    }
}

/// A separator, replaced by `sep` unless a gap pattern is set.
pub open spec fn sep_unless_gap(gap: Option<Seq<char>>, given: Seq<char>, sep: Seq<char>) -> Seq<char> {
    if gap is None {
        sep
    } else {
        given
    }
}

/// The settings after a style preset: the preset's separator applies unless
/// a gap pattern is set, its gap and suffix patterns unless ones are set, and
/// its casing always.
pub open spec fn style_spec(
    style: SampleStyle,
    v: (Seq<char>, Option<Seq<char>>, CaseMode, Option<Seq<char>>, Option<Seq<char>>),
) -> (Seq<char>, Option<Seq<char>>, CaseMode, Option<Seq<char>>, Option<Seq<char>>) {
    let (sep, gap, case, prefix, suffix) = v;
    match style {
        SampleStyle::Custom => v,
        SampleStyle::Spaces => (sep_unless_gap(gap, sep, " "@), gap, CaseMode::Lower, prefix, suffix),
        SampleStyle::Hyphens => (sep_unless_gap(gap, sep, "-"@), gap, CaseMode::Lower, prefix, suffix),
        SampleStyle::Numbers => (sep, or_pattern(gap, "[0-9]"@), CaseMode::Lower, prefix, suffix),
        SampleStyle::NumbersSymbols => (
            sep,
            or_pattern(gap, "[0-9!@#$%^&*_\\-]"@),
            CaseMode::Lower,
            prefix,
            suffix,
        ),
        SampleStyle::LoginTitle2Digits => (
            sep_unless_gap(gap, sep, ""@),
            gap,
            CaseMode::Title,
            prefix,
            or_pattern(suffix, "[0-9]{2}"@),
        ),
        SampleStyle::LoginTitleEndPunct => (
            sep_unless_gap(gap, sep, ""@),
            gap,
            CaseMode::Title,
            prefix,
            or_pattern(suffix, "[!?_\\-]"@),
        ),
    }
}

/// Presets fix the casing of words whatever casing was given: both login
/// presets title-case words, every other preset lowercases them, and `Custom`
/// keeps the casing given.
pub proof fn preset_casing(
    style: SampleStyle,
    v: (Seq<char>, Option<Seq<char>>, CaseMode, Option<Seq<char>>, Option<Seq<char>>),
)
    ensures
        (style == SampleStyle::LoginTitle2Digits || style == SampleStyle::LoginTitleEndPunct) ==> style_spec(
            style,
            v,
        ).2 == CaseMode::Title,
        (style == SampleStyle::Spaces || style == SampleStyle::Hyphens || style == SampleStyle::Numbers
            || style == SampleStyle::NumbersSymbols) ==> style_spec(style, v).2 == CaseMode::Lower,
        style == SampleStyle::Custom ==> style_spec(style, v).2 == v.2,
        style != SampleStyle::Custom ==> style_spec(style, v).2 == style_case_spec(style),
{
}

fn owned(s: &str) -> (r: String)
    ensures
        r@ == s@,
{
    string_from(chars_of(s).as_slice())
}

/// Apply a style preset to the settings given.
pub fn apply_style(style: SampleStyle, settings: SampleSettings) -> (r: SampleSettings)
    ensures
        settings_view(r) == style_spec(style, settings_view(settings)),
        style == SampleStyle::Custom ==> r.case == settings.case,
        style != SampleStyle::Custom ==> r.case == style_case_spec(style),
        (style == SampleStyle::LoginTitle2Digits || style == SampleStyle::LoginTitleEndPunct) ==> r.case
            == CaseMode::Title,
{
    proof {
        preset_casing(style, settings_view(settings));
    }
    let SampleSettings { separator, gap_regex, case, prefix_regex, suffix_regex } = settings;
    let no_gap = gap_regex.is_none();
    match style {
        SampleStyle::Custom => SampleSettings { separator, gap_regex, case, prefix_regex, suffix_regex },
        SampleStyle::Spaces => SampleSettings {
            separator: if no_gap {
                owned(" ")
            } else {
                separator
            },
            gap_regex,
            case: CaseMode::Lower,
            prefix_regex,
            suffix_regex,
        },
        SampleStyle::Hyphens => SampleSettings {
            separator: if no_gap {
                owned("-")
            } else {
                separator
            },
            gap_regex,
            case: CaseMode::Lower,
            prefix_regex,
            suffix_regex,
        },
        SampleStyle::Numbers => SampleSettings {
            separator,
            gap_regex: if no_gap {
                Some(owned("[0-9]"))
            } else {
                gap_regex
            },
            case: CaseMode::Lower,
            prefix_regex,
            suffix_regex,
        },
        SampleStyle::NumbersSymbols => SampleSettings {
            separator,
            gap_regex: if no_gap {
                Some(owned("[0-9!@#$%^&*_\\-]"))
            } else {
                gap_regex
            },
            case: CaseMode::Lower,
            prefix_regex,
            suffix_regex,
        },
        SampleStyle::LoginTitle2Digits => SampleSettings {
            separator: if no_gap {
                owned("")
            } else {
                separator
            },
            gap_regex,
            case: CaseMode::Title,
            prefix_regex,
            suffix_regex: if suffix_regex.is_none() {
                Some(owned("[0-9]{2}"))
            } else {
                suffix_regex
            },
        },
        SampleStyle::LoginTitleEndPunct => SampleSettings {
            separator: if no_gap {
                owned("")
            } else {
                separator
            },
            gap_regex,
            case: CaseMode::Title,
            prefix_regex,
            suffix_regex: if suffix_regex.is_none() {
                Some(owned("[!?_\\-]"))
            } else {
                suffix_regex
            },
        },
    }
}

/// Words with the gap before each word but the first: the gap `i - 1` goes
/// before word `i` where there is one.
pub open spec fn interleaved(words: Seq<Seq<char>>, gaps: Seq<Seq<char>>) -> Seq<char>
    decreases words.len(),
{
    if words.len() == 0 {
        Seq::empty()
    } else {
        let n = words.len() - 1;
        interleaved(words.drop_last(), gaps) + (if n > 0 && n - 1 < gaps.len() {
            gaps[n - 1]
        } else {
            Seq::empty()
        }) + words.last()
    }
}

/// A sampled phrase: the prefix, the words with their gaps, and the suffix.
pub fn assemble_phrase(prefix: &str, words: &[String], gaps: &[String], suffix: &str) -> (r: String)
    ensures
        r@ == prefix@ + interleaved(words@.map_values(|w: String| w@), gaps@.map_values(
            |g: String| g@,
        )) + suffix@,
{
    let ghost ws = words@.map_values(|w: String| w@);
    let ghost gs = gaps@.map_values(|g: String| g@);
    let mut out: Vec<char> = Vec::new();
    append_chars(&mut out, chars_of(prefix).as_slice());
    let ghost front = out@;
    for i in 0..words.len()
        invariant
            ws == words@.map_values(|w: String| w@),
            gs == gaps@.map_values(|g: String| g@),
            out@ == front + interleaved(ws.take(i as int), gs),
    {
        assert(ws.take(i + 1).drop_last() =~= ws.take(i as int));
        assert(ws.take(i + 1).last() == words@[i as int]@);
        let ghost before = out@;
        if i > 0 && i - 1 < gaps.len() {
            assert(gs[i - 1] == gaps@[i - 1]@);
            append_chars(&mut out, chars_of(gaps[i - 1].as_str()).as_slice());
        }
        let ghost mid = out@;
        append_chars(&mut out, chars_of(words[i].as_str()).as_slice());
        assert(out@ =~= front + interleaved(ws.take(i + 1), gs));
    }
    assert(ws.take(words@.len() as int) =~= ws);
    append_chars(&mut out, chars_of(suffix).as_slice());
    string_from(out.as_slice())
}

/// Whether a phrase of `len` characters meets the optional bounds.
pub open spec fn length_ok_spec(len: nat, min_chars: Option<usize>, max_chars: Option<usize>) -> bool {
    (match max_chars {
        Some(m) => len <= m,
        None => true,
    }) && (match min_chars {
        Some(m) => len >= m,
        None => true,
    })
}

/// Whether a phrase has at most `max_chars` and at least `min_chars`
/// characters, where those bounds are set.
pub fn length_ok(phrase: &str, min_chars: Option<usize>, max_chars: Option<usize>) -> (r: bool)
    ensures
        r == length_ok_spec(phrase@.len(), min_chars, max_chars),
{
    let n = chars_of(phrase).len();
    let max_ok = match max_chars {
        Some(m) => n <= m,
        None => true,
    };
    let min_ok = match min_chars {
        Some(m) => n >= m,
        None => true,
    };
    max_ok && min_ok
}

/// The word and count of one corpus line, when it yields one: the line
/// trimmed, not blank and not a `#` comment; its first whitespace-separated
/// token is the word (scrubbed), its second, when it parses as a `u64`, the
/// count (else 1); the word must pass the length and alphabet filters.
pub open spec fn corpus_entry(
    line: Seq<char>,
    ascii_lower_only: bool,
    min_word_len: usize,
    max_word_len: usize,
) -> Option<(Seq<char>, u64)> {
    let l = trim(line);
    let toks = tokens_of(l);
    if l.len() == 0 || l[0] == '#' || toks.len() == 0 {
        None
    } else {
        let count: u64 = if toks.len() >= 2 {
            match parse_unsigned(toks[1], u64::MAX as nat) {
                Some(v) => v as u64,
                None => 1,
            }
        } else {
            1
        };
        let w = scrub_spec(toks[0]);
        if w.len() < min_word_len || w.len() > max_word_len {
            None
        } else if ascii_lower_only && !ascii_lower_word(w) {
            None
        } else {
            Some((w, count))
        }
    }
}

/// The entries of all lines, in order.
pub open spec fn corpus_entries_spec(
    lines: Seq<Seq<char>>,
    ascii_lower_only: bool,
    min_word_len: usize,
    max_word_len: usize,
) -> Seq<(Seq<char>, u64)>
    decreases lines.len(),
{
    if lines.len() == 0 {
        Seq::empty()
    } else {
        let prev = corpus_entries_spec(
            lines.drop_last(),
            ascii_lower_only,
            min_word_len,
            max_word_len,
        );
        match corpus_entry(lines.last(), ascii_lower_only, min_word_len, max_word_len) {
            Some(e) => prev.push(e),
            None => prev,
        }
    }
}

/// Read a word-frequency corpus (`word [count]` per line): the `(word, count)`
/// entries it contributes, in order. Summing the counts per word gives the
/// corpus counts.
pub fn corpus_entries(
    text: &str,
    ascii_lower_only: bool,
    min_word_len: usize,
    max_word_len: usize,
) -> (r: Vec<(String, u64)>)
    ensures
        r@.map_values(|e: (String, u64)| (e.0@, e.1)) == corpus_entries_spec(
            lines_of(text@),
            ascii_lower_only,
            min_word_len,
            max_word_len,
        ),
{
    let cs = chars_of(text);
    let lines = split_lines(cs.as_slice());
    let ghost ls = lines_of(text@);
    let mut out: Vec<(String, u64)> = Vec::new();
    for i in 0..lines.len()
        invariant
            lines@.map_values(|l: Vec<char>| l@) == ls,
            ls == lines_of(text@),
            out@.map_values(|e: (String, u64)| (e.0@, e.1)) == corpus_entries_spec(
                ls.take(i as int),
                ascii_lower_only,
                min_word_len,
                max_word_len,
            ),
    {
        assert(ls.take(i + 1).drop_last() =~= ls.take(i as int));
        assert(ls[i as int] == lines@[i as int]@);
        let l = trim_chars(lines[i].as_slice());
        let toks = split_ws(l.as_slice());
        let ghost tv = toks@.map_values(|t: Vec<char>| t@);
        if l.len() > 0 && l[0] != '#' && toks.len() > 0 {
            let count: u64 = if toks.len() >= 2 {
                assert(tv[1] == toks@[1]@);
                match parse_u64(toks[1].as_slice()) {
                    Some(v) => v,
                    None => 1,
                }
            } else {
                1
            };
            assert(tv[0] == toks@[0]@);
            let raw = string_from(toks[0].as_slice());
            let w = scrub(raw.as_str());
            let n = chars_of(w.as_str()).len();
            if n >= min_word_len && n <= max_word_len && (!ascii_lower_only || is_ascii_lower_word(
                w.as_str(),
            )) {
                let ghost old_out = out@;
                let ghost wv = w@;
                out.push((w, count));
                assert(out@.map_values(|e: (String, u64)| (e.0@, e.1)) =~= old_out.map_values(
                    |e: (String, u64)| (e.0@, e.1),
                ).push((wv, count)));
            }
        }
    }
    assert(ls.take(lines@.len() as int) =~= ls);
    out
}


/// The sum of the counts of `key` over a list of `(word, count)` entries.
pub open spec fn key_total(es: Seq<(Seq<char>, u64)>, key: Seq<char>) -> nat
    decreases es.len(),
{
    if es.len() == 0 {
        0
    } else {
        key_total(es.drop_last(), key) + if es.last().0 == key {
            es.last().1 as nat
        } else {
            0nat
        }
    }
}

/// The words of a list of entries.
pub open spec fn entry_keys(es: Seq<(Seq<char>, u64)>) -> Seq<Seq<char>> {
    es.map_values(|e: (Seq<char>, u64)| e.0)
}

/// A list of entries by value.
pub open spec fn entries_view(v: Seq<(String, u64)>) -> Seq<(Seq<char>, u64)> {
    v.map_values(|e: (String, u64)| (e.0@, e.1))
}

proof fn lemma_key_total_absent(es: Seq<(Seq<char>, u64)>, key: Seq<char>)
    requires
        !entry_keys(es).contains(key),
    ensures
        key_total(es, key) == 0,
    decreases es.len(),
{
    if es.len() > 0 {
        assert(entry_keys(es.drop_last()) =~= entry_keys(es).drop_last());
        assert(entry_keys(es)[es.len() - 1] == es.last().0);
        if entry_keys(es.drop_last()).contains(key) {
            let j = choose|j: int| 0 <= j < es.len() - 1 && entry_keys(es.drop_last())[j] == key;
            assert(entry_keys(es)[j] == key);
        }
        lemma_key_total_absent(es.drop_last(), key);
    }
}

proof fn lemma_key_total_prefix(es: Seq<(Seq<char>, u64)>, i: int, key: Seq<char>)
    requires
        0 <= i <= es.len(),
    ensures
        key_total(es.take(i), key) <= key_total(es, key),
    decreases es.len(),
{
    if i < es.len() {
        assert(es.drop_last().take(i) =~= es.take(i));
        lemma_key_total_prefix(es.drop_last(), i, key);
    } else {
        assert(es.take(i) =~= es);
    }
}

/// Sum the counts of equal words: one entry per distinct word, in the order
/// of first appearance, with the sum of its counts; `None` where some word's
/// sum does not fit in a `u64`.
pub fn sum_counts(entries: &[(String, u64)]) -> (r: Option<Vec<(String, u64)>>)
    ensures
        match r {
            Some(v) => {
                &&& entry_keys(entries_view(v@)).no_duplicates()
                &&& entry_keys(entries_view(v@)).to_set() == entry_keys(entries_view(entries@)).to_set()
                &&& forall|i: int|
                    0 <= i < v@.len() ==> (#[trigger] v@[i]).1 == key_total(
                        entries_view(entries@),
                        v@[i].0@,
                    )
                &&& forall|key: Seq<char>| #[trigger] key_total(entries_view(entries@), key) <= u64::MAX
            },
            None => exists|key: Seq<char>| #[trigger] key_total(entries_view(entries@), key) > u64::MAX,
        },
{
    let ghost ev = entries_view(entries@);
    let mut acc: Vec<(String, u64)> = Vec::new();
    let mut index: StringHashMap<usize> = StringHashMap::new();
    for i in 0..entries.len()
        invariant
            ev == entries_view(entries@),
            ev.len() == entries@.len(),
            entry_keys(entries_view(acc@)).no_duplicates(),
            entry_keys(entries_view(acc@)).to_set() == entry_keys(ev.take(i as int)).to_set(),
            forall|m: int|
                0 <= m < acc@.len() ==> (#[trigger] acc@[m]).1 == key_total(
                    ev.take(i as int),
                    acc@[m].0@,
                ),
            forall|k: Seq<char>|
                #[trigger] index@.contains_key(k) <==> entry_keys(entries_view(acc@)).contains(k),
            forall|k: Seq<char>|
                index@.contains_key(k) ==> #[trigger] index@[k] < acc@.len() && acc@[index@[k] as int].0@
                    == k,
    {
        let ghost pre = ev.take(i as int);
        let ghost cur = ev.take(i + 1);
        let ghost ak = entry_keys(entries_view(acc@));
        proof {
            assert(cur.drop_last() =~= pre);
            assert(cur.last() == ev[i as int]);
            assert(ev[i as int] == (entries@[i as int].0@, entries@[i as int].1));
            assert(entry_keys(cur) =~= entry_keys(pre).push(ev[i as int].0));
            entry_keys(pre).lemma_push_to_set_commute(ev[i as int].0);
        }
        let word = &entries[i].0;
        let w = entries[i].1;
        match index.get(word.as_str()) {
            Some(mr) => {
                let m = *mr;
                let v = acc[m].1;
                match v.checked_add(w) {
                    Some(total) => {
                        let key = word.clone();
                        acc.set(m, (key, total));
                        proof {
                            assert(entry_keys(entries_view(acc@)) =~= ak);
                            assert(ak[m as int] == word@);
                            assert(ak.to_set().contains(word@));
                            assert forall|n: int| 0 <= n < acc@.len() implies (#[trigger] acc@[n]).1
                                == key_total(cur, acc@[n].0@) by {
                                if n != m {
                                    assert(ak[n] == acc@[n].0@);
                                    assert(ak[n] != ak[m as int]);
                                }
                            }
                        }
                    },
                    None => {
                        proof {
                            lemma_key_total_prefix(ev, i + 1, word@);
                            assert(key_total(ev, word@) > u64::MAX);
                        }
                        return None;
                    },
                }
            },
            None => {
                proof {
                    assert(!ak.contains(word@));
                    if ak.to_set().contains(word@) {
                        assert(ak.contains(word@));
                    }
                    lemma_key_total_absent(pre, word@);
                }
                let ghost old_index = index@;
                index.insert(word.clone(), acc.len());
                acc.push((word.clone(), w));
                proof {
                    assert(entry_keys(entries_view(acc@)) =~= ak.push(word@));
                    ak.lemma_push_to_set_commute(word@);
                    assert forall|n: int| 0 <= n < acc@.len() implies (#[trigger] acc@[n]).1
                        == key_total(cur, acc@[n].0@) by {
                        if n < acc@.len() - 1 {
                            assert(ak[n] == acc@[n].0@);
                            assert(ak[n] != word@);
                        }
                    }
                    assert forall|k: Seq<char>| #[trigger]
                        index@.contains_key(k) <==> entry_keys(entries_view(acc@)).contains(k) by {
                        if k != word@ {
                            assert(index@.contains_key(k) == old_index.contains_key(k));
                            if entry_keys(entries_view(acc@)).contains(k) {
                                let n = choose|n: int|
                                    0 <= n < acc@.len() && entry_keys(entries_view(acc@))[n] == k;
                                assert(n < acc@.len() - 1);
                                assert(ak[n] == k);
                            }
                            if ak.contains(k) {
                                let n = choose|n: int| 0 <= n < ak.len() && ak[n] == k;
                                assert(entry_keys(entries_view(acc@))[n] == k);
                            }
                        } else {
                            assert(entry_keys(entries_view(acc@))[acc@.len() - 1] == k);
                        }
                    }
                }
            },
        }
    }
    proof {
        assert(ev.take(entries@.len() as int) =~= ev);
        let ak = entry_keys(entries_view(acc@));
        assert forall|key: Seq<char>| #[trigger] key_total(ev, key) <= u64::MAX by {
            if ak.contains(key) {
                let n = choose|n: int| 0 <= n < ak.len() && ak[n] == key;
                assert(acc@[n].0@ == key);
            } else {
                assert(!entry_keys(ev).to_set().contains(key));
                lemma_key_total_absent(ev, key);
            }
        }
    }
    Some(acc)
}

/// The corpus counts of a word-frequency text: its entries (see
/// `corpus_entries`) with the counts of equal words summed; `None` where a
/// sum does not fit in a `u64`.
pub fn corpus_counts(
    text: &str,
    ascii_lower_only: bool,
    min_word_len: usize,
    max_word_len: usize,
) -> (r: Option<Vec<(String, u64)>>)
    ensures
        ({
            let es = corpus_entries_spec(lines_of(text@), ascii_lower_only, min_word_len, max_word_len);
            match r {
                Some(v) => {
                    &&& entry_keys(entries_view(v@)).no_duplicates()
                    &&& entry_keys(entries_view(v@)).to_set() == entry_keys(es).to_set()
                    &&& forall|i: int|
                        0 <= i < v@.len() ==> (#[trigger] v@[i]).1 == key_total(es, v@[i].0@)
                    &&& forall|key: Seq<char>| #[trigger] key_total(es, key) <= u64::MAX
                },
                None => exists|key: Seq<char>| #[trigger] key_total(es, key) > u64::MAX,
            }
        }),
{
    let es = corpus_entries(text, ascii_lower_only, min_word_len, max_word_len);
    sum_counts(es.as_slice())
}

} // verus!
