//! Turning raw tokens into typing-friendly words.
use vstd::prelude::*;
use crate::text::{is_ws, string_from, trim, trim_chars, trim_end, trim_start};
use crate::unicode::{char_lowercase, lowercase_of, nfkd, nfkd_of};

verus! {

/// Combining marks (diacritics) in the blocks that `scrub` strips:
/// U+0300–036F, U+1AB0–1AFF, U+1DC0–1DFF, U+20D0–20FF and U+FE20–FE2F.
pub open spec fn combining_mark(c: char) -> bool {
    let u = c as u32;
    ||| 0x0300 <= u <= 0x036F
    ||| 0x1AB0 <= u <= 0x1AFF
    ||| 0x1DC0 <= u <= 0x1DFF
    ||| 0x20D0 <= u <= 0x20FF
    ||| 0xFE20 <= u <= 0xFE2F
}

/// Whether `ch` is a combining mark that `scrub` drops.
pub fn is_combining_mark(ch: char) -> (r: bool)
    ensures
        r == combining_mark(ch),
{
    let u = ch as u32;
    (0x0300 <= u && u <= 0x036F) || (0x1AB0 <= u && u <= 0x1AFF) || (0x1DC0 <= u && u <= 0x1DFF)
        || (0x20D0 <= u && u <= 0x20FF) || (0xFE20 <= u && u <= 0xFE2F)
}

/// What a lowercased character becomes in a scrubbed word: ASCII letters and
/// the separators space, `-`, `_`, `'` stay, the right single quotation mark
/// becomes `'`, everything else is dropped.
pub open spec fn kept_char(c: char) -> Option<char> {
    if 'a' <= c <= 'z' || c == ' ' || c == '-' || c == '_' || c == '\'' {
        Some(c)
    } else if c == '\u{2019}' {
        Some('\'')
    } else {
        None
    }
}

/// The characters a scrubbed word may hold.
pub open spec fn word_char(c: char) -> bool {
    'a' <= c <= 'z' || c == ' ' || c == '-' || c == '_' || c == '\''
}

/// The kept characters of a sequence of lowercased characters.
pub open spec fn kept_chars(l: Seq<char>) -> Seq<char>
    decreases l.len(),
{
    if l.len() == 0 {
        Seq::empty()
    } else {
        match kept_char(l.last()) {
            Some(k) => kept_chars(l.drop_last()).push(k),
            None => kept_chars(l.drop_last()),
        }
    }
}

/// The kept characters contributed by one decomposed character: none for a
/// combining mark, else the kept characters of its lowercase mapping.
pub open spec fn piece(ch: char) -> Seq<char> {
    if combining_mark(ch) {
        Seq::empty()
    } else {
        kept_chars(lowercase_of(ch))
    }
}

/// The kept characters of a decomposed string, in order.
pub open spec fn expanded(d: Seq<char>) -> Seq<char>
    decreases d.len(),
{
    if d.len() == 0 {
        Seq::empty()
    } else {
        expanded(d.drop_last()) + piece(d.last())
    }
}

/// Append one kept character: a space only when the text so far is non-empty
/// and does not already end in a space.
pub open spec fn collapse_step(o: Seq<char>, k: char) -> Seq<char> {
    if k == ' ' {
        if o.len() == 0 || o.last() == ' ' {
            o
        } else {
            o.push(' ')
        }
    } else {
        o.push(k)
    }
}

/// The kept characters with leading and repeated spaces dropped.
pub open spec fn collapse(t: Seq<char>) -> Seq<char>
    decreases t.len(),
{
    if t.len() == 0 {
        Seq::empty()
    } else {
        collapse_step(collapse(t.drop_last()), t.last())
    }
}

/// The scrubbed form of `s`: NFKD, combining marks dropped, lowercased, only
/// the kept characters, spaces collapsed, and trimmed.
pub open spec fn scrub_spec(s: Seq<char>) -> Seq<char> {
    trim(collapse(expanded(nfkd_of(s))))
}

proof fn lemma_collapse_push(t: Seq<char>, k: char)
    ensures
        collapse(t.push(k)) == collapse_step(collapse(t), k),
{
    assert(t.push(k).drop_last() =~= t);
}

proof fn lemma_collapse_word_chars(t: Seq<char>)
    requires
        forall|i: int| 0 <= i < t.len() ==> word_char(#[trigger] t[i]),
    ensures
        forall|i: int| 0 <= i < collapse(t).len() ==> word_char(#[trigger] collapse(t)[i]),
        collapse(t).len() > 0 ==> collapse(t)[0] != ' ',
        forall|i: int|
            0 <= i < collapse(t).len() - 1 ==> !(#[trigger] collapse(t)[i] == ' ' && collapse(t)[i
                + 1] == ' '),
    decreases t.len(),
{
    if t.len() > 0 {
        let u = t.drop_last();
        assert forall|i: int| 0 <= i < u.len() implies word_char(#[trigger] u[i]) by {
            assert(u[i] == t[i]);
        }
        lemma_collapse_word_chars(u);
        assert(word_char(t[t.len() - 1]));
    }
}

proof fn lemma_kept_word_chars(l: Seq<char>)
    ensures
        forall|i: int| 0 <= i < kept_chars(l).len() ==> word_char(#[trigger] kept_chars(l)[i]),
    decreases l.len(),
{
    if l.len() > 0 {
        lemma_kept_word_chars(l.drop_last());
        let p = kept_chars(l.drop_last());
        if let Some(k) = kept_char(l.last()) {
            assert(word_char(k));
            assert forall|i: int| 0 <= i < p.push(k).len() implies word_char(
                #[trigger] p.push(k)[i],
            ) by {
                if i < p.len() {
                    assert(p.push(k)[i] == p[i]);
                }
            }
        }
    }
}

proof fn lemma_expanded_word_chars(d: Seq<char>)
    ensures
        forall|i: int| 0 <= i < expanded(d).len() ==> word_char(#[trigger] expanded(d)[i]),
    decreases d.len(),
{
    if d.len() > 0 {
        lemma_expanded_word_chars(d.drop_last());
        lemma_kept_word_chars(lowercase_of(d.last()));
        let a = expanded(d.drop_last());
        let b = piece(d.last());
        assert forall|i: int| 0 <= i < (a + b).len() implies word_char(#[trigger] (a + b)[i]) by {
            if i < a.len() {
                assert((a + b)[i] == a[i]);
            } else {
                assert((a + b)[i] == b[i - a.len()]);
            }
        }
    }
}

proof fn lemma_trim_end_word(s: Seq<char>)
    requires
        forall|i: int| 0 <= i < s.len() ==> word_char(#[trigger] s[i]),
        s.len() > 0 ==> s[0] != ' ',
        forall|i: int| 0 <= i < s.len() - 1 ==> !(#[trigger] s[i] == ' ' && s[i + 1] == ' '),
    ensures
        trim(s) == (if s.len() > 0 && s.last() == ' ' {
            s.drop_last()
        } else {
            s
        }),
{
    if s.len() > 0 {
        assert(!is_ws(s[0]));
    }
    assert(trim_start(s) == s);
    if s.len() > 0 && s.last() == ' ' {
        let t = s.drop_last();
        if t.len() > 0 {
            assert(t.last() == s[s.len() - 2]);
            assert(!is_ws(t.last()));
        }
        assert(trim_end(t) == t);
    } else if s.len() > 0 {
        assert(!is_ws(s.last()));
    }
}

/// Whether `t` is already a scrubbed word: only word characters, no space at
/// either end, and no two spaces in a row.
pub open spec fn scrubbed(t: Seq<char>) -> bool {
    &&& forall|i: int| 0 <= i < t.len() ==> word_char(#[trigger] t[i])
    &&& t.len() > 0 ==> t[0] != ' ' && t.last() != ' '
    &&& forall|i: int| 0 <= i < t.len() - 1 ==> !(#[trigger] t[i] == ' ' && t[i + 1] == ' ')
}

proof fn lemma_collapse_id(t: Seq<char>)
    requires
        t.len() > 0 ==> t[0] != ' ',
        forall|i: int| 0 <= i < t.len() - 1 ==> !(#[trigger] t[i] == ' ' && t[i + 1] == ' '),
    ensures
        collapse(t) == t,
    decreases t.len(),
{
    if t.len() > 0 {
        let u = t.drop_last();
        assert forall|i: int| 0 <= i < u.len() - 1 implies !(#[trigger] u[i] == ' ' && u[i + 1] == ' ') by {
            assert(u[i] == t[i]);
            assert(u[i + 1] == t[i + 1]);
        }
        if u.len() > 0 {
            assert(u[0] == t[0]);
        }
        lemma_collapse_id(u);
        if t.last() == ' ' {
            assert(u.len() > 0);
            assert(u.last() == t[t.len() - 2]);
            assert(!(t[t.len() - 2] == ' ' && t[t.len() - 1] == ' '));
        }
        assert(u.push(t.last()) =~= t);
    }
}

/// Scrub a token into a typing-friendly word: NFKD-normalize, drop combining
/// marks, lowercase, keep ASCII letters and the separators space, `-`, `_`,
/// `'` (mapping the typographic apostrophe to `'`), collapse runs of spaces and
/// trim. A word that is already scrubbed comes back unchanged, so scrubbing
/// twice gives what scrubbing once does.
pub fn scrub(s: &str) -> (r: String)
    ensures
        r@ == scrub_spec(s@),
        scrubbed(r@),
        scrubbed(s@) ==> r@ == s@,
        forall|i: int| 0 <= i < r@.len() ==> word_char(#[trigger] r@[i]),
        r@.len() > 0 ==> r@[0] != ' ' && r@.last() != ' ',
        forall|i: int| 0 <= i < r@.len() - 1 ==> !(#[trigger] r@[i] == ' ' && r@[i + 1] == ' '),
{
    let ghost w = scrubbed(s@);
    let d = nfkd(s);
    proof {
        if w {
            assert forall|i: int| 0 <= i < s@.len() implies (#[trigger] s@[i] as u32) < 128 by {
                assert(word_char(s@[i]));
            }
        }
    }
    let mut out: Vec<char> = Vec::new();
    let mut prev_space = false;
    for i in 0..d.len()
        invariant
            out@ == collapse(expanded(d@.take(i as int))),
            prev_space == (out@.len() > 0 && out@.last() == ' '),
            w == scrubbed(s@),
            w ==> d@ == s@,
            w ==> expanded(d@.take(i as int)) == d@.take(i as int),
    {
        let ch = d[i];
        assert(d@.take(i + 1).drop_last() =~= d@.take(i as int));
        let ghost base = expanded(d@.take(i as int));
        if is_combining_mark(ch) {
            proof {
                if w {
                    assert(word_char(s@[i as int]));
                }
            }
            assert(expanded(d@.take(i + 1)) =~= base);
        } else {
            let lower = char_lowercase(ch);
            for j in 0..lower.len()
                invariant
                    base == expanded(d@.take(i as int)),
                    lower@ == lowercase_of(ch),
                    out@ == collapse(base + kept_chars(lower@.take(j as int))),
                    prev_space == (out@.len() > 0 && out@.last() == ' '),
            {
                let lo = lower[j];
                assert(lower@.take(j + 1).drop_last() =~= lower@.take(j as int));
                let keep: Option<char> = if ('a' <= lo && lo <= 'z') || lo == ' ' || lo == '-'
                    || lo == '_' || lo == '\'' {
                    Some(lo)
                } else if lo == '\u{2019}' {
                    Some('\'')
                } else {
                    None
                };
                match keep {
                    Some(k) => {
                        let ghost prev = base + kept_chars(lower@.take(j as int));
                        assert(base + kept_chars(lower@.take(j + 1)) =~= prev.push(k));
                        proof {
                            lemma_collapse_push(prev, k);
                        }
                        if k == ' ' {
                            if !(out.len() == 0 || prev_space) {
                                prev_space = true;
                                out.push(' ');
                            }
                        } else {
                            prev_space = false;
                            out.push(k);
                        }
                    },
                    None => {
                        assert(kept_chars(lower@.take(j + 1)) =~= kept_chars(
                            lower@.take(j as int),
                        ));
                    },
                }
            }
            assert(lower@.take(lower@.len() as int) =~= lower@);
            assert(expanded(d@.take(i + 1)) =~= base + kept_chars(lower@));
            proof {
                if w {
                    assert(word_char(s@[i as int]));
                    assert(lower@ == seq![ch]);
                    let one = seq![ch];
                    assert(one.drop_last() =~= Seq::<char>::empty());
                    assert(one.last() == ch);
                    assert(kept_char(ch) == Some(ch));
                    assert(kept_chars(Seq::<char>::empty()) == Seq::<char>::empty());
                    assert(kept_chars(one) == kept_chars(one.drop_last()).push(ch));
                    assert(Seq::<char>::empty().push(ch) =~= one);
                    assert(kept_chars(lower@) == seq![ch]);
                    assert(d@.take(i + 1) =~= d@.take(i as int) + seq![ch]);
                }
            }
        }
    }
    assert(d@.take(d@.len() as int) =~= d@);
    proof {
        if w {
            lemma_collapse_id(s@);
        }
        lemma_expanded_word_chars(d@);
        lemma_collapse_word_chars(expanded(d@));
        lemma_trim_end_word(out@);
    }
    let t = trim_chars(out.as_slice());
    let r = string_from(t.as_slice());
    proof {
        let o = out@;
        assert forall|i: int| 0 <= i < r@.len() implies word_char(#[trigger] r@[i]) by {
            assert(r@[i] == o[i]);
        }
        assert forall|i: int| 0 <= i < r@.len() - 1 implies !(#[trigger] r@[i] == ' ' && r@[i
            + 1] == ' ') by {
            assert(r@[i] == o[i]);
            assert(r@[i + 1] == o[i + 1]);
        }
        if r@.len() > 0 {
            assert(r@[0] == o[0]);
            if o.len() > 0 && o.last() == ' ' {
                assert(r@.last() == o[o.len() - 2]);
                assert(!(o[o.len() - 2] == ' ' && o[o.len() - 1] == ' '));
            }
        }
    }
    r
}

} // verus!
