//! Digraph keys: the `"a|b"` names under which a timing model stores the
//! mean time from grapheme `a` to grapheme `b`.
use vstd::prelude::*;
use crate::passphrase::{entries_view, entry_keys, key_total, sum_counts};
use crate::text::{chars_of, split_once, split_once_chars, string_from};
use crate::wordfreq::strings_view;

verus! {

/// The key of the digraph `(a, b)`: `a`, then `|`, then `b`.
pub open spec fn digraph_key_spec(a: Seq<char>, b: Seq<char>) -> Seq<char> {
    a + seq!['|'] + b
}

/// The key of the digraph `(a, b)`, with an explicit separator so that keys
/// are unambiguous.
pub fn digraph_key(a: &str, b: &str) -> (r: String)
    ensures
        r@ == digraph_key_spec(a@, b@),
{
    let x = chars_of(a);
    let y = chars_of(b);
    let mut v: Vec<char> = Vec::new();
    for i in 0..x.len()
        invariant
            v@ == x@.take(i as int),
    {
        v.push(x[i]);
    }
    assert(x@.take(x@.len() as int) =~= x@);
    v.push('|');
    let ghost front = v@;
    for i in 0..y.len()
        invariant
            v@ == front + y@.take(i as int),
    {
        v.push(y[i]);
        assert(y@.take(i + 1) =~= y@.take(i as int).push(y@[i as int]));
    }
    assert(y@.take(y@.len() as int) =~= y@);
    assert(v@ =~= digraph_key_spec(a@, b@));
    string_from(v.as_slice())
}

/// The two graphemes named by a key, split at its first `|`; a key without
/// `|` names none and gives two empty parts.
pub open spec fn split_digraph_key_spec(k: Seq<char>) -> (Seq<char>, Seq<char>) {
    match split_once(k, '|') {
        Some(p) => p,
        None => (Seq::empty(), Seq::empty()),
    }
}

/// Split a digraph key back into its two graphemes (`split_once('|')`,
/// or two empty strings when there is no `|`).
pub fn split_digraph_key(k: &str) -> (r: (String, String))
    ensures
        (r.0@, r.1@) == split_digraph_key_spec(k@),
{
    let cs = chars_of(k);
    match split_once_chars(cs.as_slice(), '|') {
        Some((a, b)) => (string_from(a.as_slice()), string_from(b.as_slice())),
        None => (String::new(), String::new()),
    }
}

/// The keys of the adjacent pairs of a grapheme sequence.
pub open spec fn digraph_keys_spec(grams: Seq<Seq<char>>) -> Seq<Seq<char>> {
    Seq::new(
        (if grams.len() == 0 {
            0
        } else {
            grams.len() - 1
        }) as nat,
        |i: int| digraph_key_spec(grams[i], grams[i + 1]),
    )
}

/// The keys of the digraphs of a grapheme sequence, in order: one fewer
/// than there are graphemes.
pub fn digraph_keys(grams: &[String]) -> (r: Vec<String>)
    ensures
        r@.map_values(|k: String| k@) == digraph_keys_spec(grams@.map_values(|g: String| g@)),
{
    let ghost gs = grams@.map_values(|g: String| g@);
    let mut out: Vec<String> = Vec::new();
    if grams.len() < 2 {
        assert(out@.map_values(|k: String| k@) =~= digraph_keys_spec(gs));
        return out;
    }
    for i in 0..grams.len() - 1
        invariant
            grams@.len() >= 2,
            gs == grams@.map_values(|g: String| g@),
            out@.len() == i,
            forall|j: int|
                0 <= j < i ==> (#[trigger] out@[j])@ == digraph_key_spec(gs[j], gs[j + 1]),
    {
        let k = digraph_key(grams[i].as_str(), grams[i + 1].as_str());
        out.push(k);
    }
    assert(out@.map_values(|k: String| k@) =~= digraph_keys_spec(gs));
    out
}

proof fn lemma_find_first_concat(a: Seq<char>, b: Seq<char>)
    requires
        !a.contains('|'),
    ensures
        crate::text::find_first(a + seq!['|'] + b, '|') == Some(a.len() as int),
    decreases a.len(),
{
    let s = a + seq!['|'] + b;
    if a.len() == 0 {
        assert(s[0] == '|');
    } else {
        assert(s[0] == a[0]);
        assert(!a.drop_first().contains('|')) by {
            if a.drop_first().contains('|') {
                let i = choose|i: int| 0 <= i < a.drop_first().len() && a.drop_first()[i] == '|';
                assert(a[i + 1] == '|');
            }
        }
        lemma_find_first_concat(a.drop_first(), b);
        assert(s.drop_first() =~= a.drop_first() + seq!['|'] + b);
    }
}

/// Splitting a key gives back its two graphemes whenever the first grapheme
/// holds no `|`.
pub proof fn split_digraph_key_roundtrip(a: Seq<char>, b: Seq<char>)
    requires
        !a.contains('|'),
    ensures
        split_digraph_key_spec(digraph_key_spec(a, b)) == (a, b),
{
    lemma_find_first_concat(a, b);
    let s = digraph_key_spec(a, b);
    assert(s.take(a.len() as int) =~= a);
    assert(s.skip(a.len() as int + 1) =~= b);
}


/// Whether a recorded row's delays fit its phrase: at least two graphemes,
/// and one delay for each pair of neighbouring graphemes.
pub fn delays_fit(n_graphemes: usize, n_delays: usize) -> (r: bool)
    ensures
        r == (n_graphemes >= 2 && n_delays + 1 == n_graphemes),
{
    n_graphemes >= 2 && n_delays == n_graphemes - 1
}

/// Whether a row counts as clean typing for fitting: it has no backspaces,
/// unless rows with corrections are allowed.
pub fn clean_typing(backspaces: Option<u32>, allow_corrections: bool) -> (r: bool)
    ensures
        r == (allow_corrections || backspaces is None || backspaces == Some(0u32)),
{
    match backspaces {
        Some(b) => allow_corrections || b == 0,
        None => true,
    }
}

/// How many times `key` occurs among the observed keys.
pub open spec fn key_occurrences(keys: Seq<Seq<char>>, key: Seq<char>) -> nat
    decreases keys.len(),
{
    if keys.len() == 0 {
        0
    } else {
        key_occurrences(keys.drop_last(), key) + if keys.last() == key {
            1nat
        } else {
            0nat
        }
    }
}

/// One `(key, 1)` entry for each observed key.
pub open spec fn unit_entries(keys: Seq<Seq<char>>) -> Seq<(Seq<char>, u64)> {
    keys.map_values(|k: Seq<char>| (k, 1u64))
}

proof fn lemma_unit_total(keys: Seq<Seq<char>>, key: Seq<char>)
    ensures
        key_total(unit_entries(keys), key) == key_occurrences(keys, key),
        key_occurrences(keys, key) <= keys.len(),
    decreases keys.len(),
{
    if keys.len() > 0 {
        assert(unit_entries(keys).drop_last() =~= unit_entries(keys.drop_last()));
        lemma_unit_total(keys.drop_last(), key);
    }
}

/// Count the observations of each digraph key: one entry per distinct key,
/// in the order of first appearance, with the number of times it occurs.
pub fn digraph_counts(keys: &[String]) -> (r: Vec<(String, u64)>)
    ensures
        entry_keys(entries_view(r@)).no_duplicates(),
        entry_keys(entries_view(r@)).to_set() == strings_view(keys@).to_set(),
        forall|i: int|
            0 <= i < r@.len() ==> (#[trigger] r@[i]).1 == key_occurrences(strings_view(keys@), r@[i].0@),
{
    let ghost ks = strings_view(keys@);
    let mut ones: Vec<(String, u64)> = Vec::new();
    for i in 0..keys.len()
        invariant
            ks == strings_view(keys@),
            entries_view(ones@) == unit_entries(ks.take(i as int)),
    {
        let k = keys[i].clone();
        let ghost before = ones@;
        ones.push((k, 1u64));
        proof {
            assert(k@ == ks[i as int]);
            assert(ones@ == before.push((k, 1u64)));
            assert(entries_view(ones@) =~= entries_view(before).push((k@, 1u64)));
            assert(unit_entries(ks.take(i + 1)) =~= unit_entries(ks.take(i as int)).push((ks[i as int], 1u64)));
        }
    }
    assert(ks.take(keys@.len() as int) =~= ks);
    let ghost ev = entries_view(ones@);
    assert(entry_keys(ev) =~= ks);
    match sum_counts(ones.as_slice()) {
        Some(v) => {
            assert forall|i: int| 0 <= i < v@.len() implies (#[trigger] v@[i]).1 == key_occurrences(
                ks,
                v@[i].0@,
            ) by {
                lemma_unit_total(ks, v@[i].0@);
            }
            v
        },
        None => {
            proof {
                let key = choose|key: Seq<char>| #[trigger] key_total(ev, key) > u64::MAX;
                lemma_unit_total(ks, key);
            }
            Vec::new()
        },
    }
}

/// The entries whose count reaches `min_count`, in order.
pub open spec fn kept_counts_spec(counts: Seq<(Seq<char>, u64)>, min_count: u64) -> Seq<(Seq<char>, u64)>
    decreases counts.len(),
{
    if counts.len() == 0 {
        Seq::empty()
    } else {
        let front = kept_counts_spec(counts.drop_last(), min_count);
        if counts.last().1 >= min_count {
            front.push(counts.last())
        } else {
            front
        }
    }
}

/// A digraph that a fit keeps: its key, how often it was observed, and that
/// count as a model stores it (held at `u32::MAX`).
pub struct KeptDigraph {
    pub key: String,
    pub count: u64,
    pub stored_count: u32,
}

/// The kept digraphs by value.
pub open spec fn kept_view(v: Seq<KeptDigraph>) -> Seq<(Seq<char>, u64)> {
    v.map_values(|d: KeptDigraph| (d.key@, d.count))
}

/// Keep the digraphs observed at least `min_count` times, in order, each with
/// its count held at `u32::MAX` for storing.
pub fn kept_digraphs(counts: &[(String, u64)], min_count: u64) -> (r: Vec<KeptDigraph>)
    ensures
        kept_view(r@) == kept_counts_spec(entries_view(counts@), min_count),
        forall|i: int|
            0 <= i < r@.len() ==> (#[trigger] r@[i]).stored_count == if r@[i].count > u32::MAX {
                u32::MAX as u64
            } else {
                r@[i].count
            },
{
    let ghost cv = entries_view(counts@);
    let mut out: Vec<KeptDigraph> = Vec::new();
    for i in 0..counts.len()
        invariant
            cv == entries_view(counts@),
            kept_view(out@) == kept_counts_spec(cv.take(i as int), min_count),
            forall|j: int|
                0 <= j < out@.len() ==> (#[trigger] out@[j]).stored_count == if out@[j].count > u32::MAX {
                    u32::MAX as u64
                } else {
                    out@[j].count
                },
    {
        assert(cv.take(i + 1).drop_last() =~= cv.take(i as int));
        let c = counts[i].1;
        if c >= min_count {
            let stored: u32 = if c > 0xffff_ffffu64 {
                0xffff_ffffu32
            } else {
                c as u32
            };
            out.push(KeptDigraph { key: counts[i].0.clone(), count: c, stored_count: stored });
            assert(kept_view(out@) =~= kept_counts_spec(cv.take(i + 1), min_count));
        } else {
            assert(kept_view(out@) =~= kept_counts_spec(cv.take(i + 1), min_count));
        }
    }
    assert(cv.take(counts@.len() as int) =~= cv);
    out
}

} // verus!
