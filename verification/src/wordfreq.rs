//! Word-frequency lists assembled from several sources: a head of counted
//! words and a tail of plain word lists that only add coverage.
use vstd::prelude::*;
use vstd::hash_map::StringHashMap;
use crate::entropy::{lemma_str_lt_irrefl, lemma_str_lt_total, str_lt};
use crate::passphrase::{entries_view, entry_keys};
use crate::rank::sort_by_rank;
use crate::text::{chars_of, lines_of, split_lines, split_ws, string_from, tokens_of, trim, trim_chars};

verus! {

/// An entry by value.
pub open spec fn word_entry(e: (String, u64)) -> (Seq<char>, u64) {
    (e.0@, e.1)
}

/// Whether `x` ranks above `y`: a higher count, or an equal count and a word
/// that comes first in string order.
pub open spec fn ranks_above(x: (Seq<char>, u64), y: (Seq<char>, u64)) -> bool {
    x.1 > y.1 || (x.1 == y.1 && str_lt(x.0, y.0))
}

/// Strings by value.
pub open spec fn strings_view(s: Seq<String>) -> Seq<Seq<char>> {
    s.map_values(|x: String| x@)
}

/// The count of the last entry for `w` in `head`, if there is one.
pub open spec fn last_count(head: Seq<(Seq<char>, u64)>, w: Seq<char>) -> Option<u64>
    decreases head.len(),
{
    if head.len() == 0 {
        None
    } else if head.last().0 == w {
        Some(head.last().1)
    } else {
        last_count(head.drop_last(), w)
    }
}

/// The count a merged list gives `w`: its last count in `head`; else 1 if
/// `tail` holds it; else it is not in the list.
pub open spec fn merged_count(head: Seq<(Seq<char>, u64)>, tail: Seq<Seq<char>>, w: Seq<char>) -> Option<u64> {
    match last_count(head, w) {
        Some(c) => Some(c),
        None => if tail.contains(w) {
            Some(1u64)
        } else {
            None
        },
    }
}

/// The word of a line of a plain word list: the line trimmed, unless it is
/// blank or a `#` comment.
pub open spec fn list_word(line: Seq<char>) -> Option<Seq<char>> {
    let l = trim(line);
    if l.len() == 0 || l[0] == '#' {
        None
    } else {
        Some(l)
    }
}

/// The word of a line of a numbered word list (`11111 abacus`): its second
/// whitespace-separated token, unless the line is blank or a `#` comment.
pub open spec fn numbered_list_word(line: Seq<char>) -> Option<Seq<char>> {
    let l = trim(line);
    let toks = tokens_of(l);
    if l.len() == 0 || l[0] == '#' || toks.len() < 2 {
        None
    } else {
        Some(toks[1])
    }
}

/// The words of all lines of a word list, in order; `numbered` selects the
/// numbered format.
pub open spec fn list_words_spec(lines: Seq<Seq<char>>, numbered: bool) -> Seq<Seq<char>>
    decreases lines.len(),
{
    if lines.len() == 0 {
        Seq::empty()
    } else {
        let prev = list_words_spec(lines.drop_last(), numbered);
        let w = if numbered {
            numbered_list_word(lines.last())
        } else {
            list_word(lines.last())
        };
        match w {
            Some(x) => prev.push(x),
            None => prev,
        }
    }
}

/// The words of a word list, in order: one per line (trimmed) in the plain
/// format, the second token of each line in the numbered format
/// (`11111 abacus`); blank lines and `#` comments yield none.
pub fn list_words(text: &str, numbered: bool) -> (r: Vec<String>)
    ensures
        strings_view(r@) == list_words_spec(lines_of(text@), numbered),
{
    let cs = chars_of(text);
    let lines = split_lines(cs.as_slice());
    let ghost ls = lines_of(text@);
    let mut out: Vec<String> = Vec::new();
    for i in 0..lines.len()
        invariant
            lines@.map_values(|l: Vec<char>| l@) == ls,
            strings_view(out@) == list_words_spec(ls.take(i as int), numbered),
    {
        assert(ls.take(i + 1).drop_last() =~= ls.take(i as int));
        assert(ls[i as int] == lines@[i as int]@);
        let l = trim_chars(lines[i].as_slice());
        if l.len() > 0 && l[0] != '#' {
            let ghost before = out@;
            if numbered {
                let toks = split_ws(l.as_slice());
                if toks.len() >= 2 {
                    let ghost tv = toks@.map_values(|t: Vec<char>| t@);
                    assert(tv[1] == toks@[1]@);
                    out.push(string_from(toks[1].as_slice()));
                    assert(strings_view(out@) =~= strings_view(before).push(tv[1]));
                }
            } else {
                out.push(string_from(l.as_slice()));
                assert(strings_view(out@) =~= strings_view(before).push(l@));
            }
        }
    }
    assert(ls.take(lines@.len() as int) =~= ls);
    out
}

proof fn lemma_last_count_push(head: Seq<(Seq<char>, u64)>, e: (Seq<char>, u64), w: Seq<char>)
    ensures
        last_count(head.push(e), w) == if e.0 == w {
            Some(e.1)
        } else {
            last_count(head, w)
        },
{
    assert(head.push(e).drop_last() =~= head);
}

proof fn lemma_last_count_key(head: Seq<(Seq<char>, u64)>, w: Seq<char>)
    ensures
        last_count(head, w) is Some <==> entry_keys(head).contains(w),
    decreases head.len(),
{
    if head.len() > 0 {
        let ks = entry_keys(head);
        assert(entry_keys(head.drop_last()) =~= ks.drop_last());
        lemma_last_count_key(head.drop_last(), w);
        if ks.drop_last().contains(w) {
            let j = choose|j: int| 0 <= j < ks.len() - 1 && ks.drop_last()[j] == w;
            assert(ks[j] == w);
        }
        if ks.contains(w) && head.last().0 != w {
            let j = choose|j: int| 0 <= j < ks.len() && ks[j] == w;
            assert(j != ks.len() - 1);
            assert(ks.drop_last()[j] == w);
        }
        if head.last().0 == w {
            assert(ks[ks.len() - 1] == w);
        }
    }
}

/// The map from words to positions and the entries it indexes agree.
pub open spec fn indexes(index: Map<Seq<char>, usize>, es: Seq<(String, u64)>) -> bool {
    &&& entry_keys(entries_view(es)).no_duplicates()
    &&& forall|x: Seq<char>| #[trigger]
        index.contains_key(x) <==> entry_keys(entries_view(es)).contains(x)
    &&& forall|x: Seq<char>|
        index.contains_key(x) ==> #[trigger] index[x] < es.len() && es[index[x] as int].0@ == x
}

proof fn lemma_indexes_push(
    index: Map<Seq<char>, usize>,
    es: Seq<(String, u64)>,
    e: (String, u64),
)
    requires
        indexes(index, es),
        !index.contains_key(e.0@),
        es.len() <= usize::MAX,
    ensures
        indexes(index.insert(e.0@, es.len() as usize), es.push(e)),
        entry_keys(entries_view(es.push(e))) == entry_keys(entries_view(es)).push(e.0@),
{
    let ks = entry_keys(entries_view(es));
    let ks2 = entry_keys(entries_view(es.push(e)));
    assert(ks2 =~= ks.push(e.0@));
    let idx2 = index.insert(e.0@, es.len() as usize);
    assert forall|x: Seq<char>| #[trigger] idx2.contains_key(x) <==> ks2.contains(x) by {
        if x != e.0@ {
            if ks2.contains(x) {
                let n = choose|n: int| 0 <= n < ks2.len() && ks2[n] == x;
                assert(n < ks.len());
                assert(ks[n] == x);
            }
            if ks.contains(x) {
                let n = choose|n: int| 0 <= n < ks.len() && ks[n] == x;
                assert(ks2[n] == x);
            }
        } else {
            assert(ks2[ks.len() as int] == x);
        }
    }
    assert forall|x: Seq<char>| idx2.contains_key(x) implies #[trigger] idx2[x] < es.push(e).len()
        && es.push(e)[idx2[x] as int].0@ == x by {
        if x != e.0@ {
            assert(index.contains_key(x));
            assert(idx2[x] == index[x]);
            assert(index[x] < es.len());
            assert(es.push(e)[index[x] as int] == es[index[x] as int]);
        } else {
            assert(idx2[x] == es.len());
            assert(es.push(e)[es.len() as int] == e);
        }
    }
}

/// Merge a head of counted words with tails of plain words: each word of
/// either gets its last count in the head, or 1 when only a tail holds it.
/// The result holds each such word once, by rank: higher counts first,
/// equal counts in word order.
pub fn merge_word_counts(head: &[(String, u64)], tail: &[String]) -> (r: Vec<(String, u64)>)
    ensures
        forall|i: int|
            0 <= i < r@.len() ==> merged_count(entries_view(head@), strings_view(tail@), (#[trigger] r@[i]).0@)
                == Some(r@[i].1),
        forall|w: Seq<char>|
            (#[trigger] merged_count(entries_view(head@), strings_view(tail@), w)) is Some ==> entry_keys(
                entries_view(r@),
            ).contains(w),
        forall|i: int, j: int|
            0 <= i < j < r@.len() ==> ranks_above(word_entry(r@[i]), word_entry(r@[j])),
{
    let ghost hv = entries_view(head@);
    let ghost tv = strings_view(tail@);
    let mut es: Vec<(String, u64)> = Vec::new();
    let mut index: StringHashMap<usize> = StringHashMap::new();
    for i in 0..head.len()
        invariant
            hv == entries_view(head@),
            hv.len() == head@.len(),
            indexes(index@, es@),
            forall|m: int|
                0 <= m < es@.len() ==> last_count(hv.take(i as int), (#[trigger] es@[m]).0@) == Some(
                    es@[m].1,
                ),
            forall|x: Seq<char>|
                #![trigger index@.contains_key(x)]
                last_count(hv.take(i as int), x) is Some ==> index@.contains_key(x),
    {
        let ghost pre = hv.take(i as int);
        let ghost e = hv[i as int];
        proof {
            assert(hv.take(i + 1) =~= pre.push(e));
            assert(e == (head@[i as int].0@, head@[i as int].1));
        }
        let word = &head[i].0;
        let c = head[i].1;
        match index.get(word.as_str()) {
            Some(mr) => {
                let m = *mr;
                let ghost old_es = es@;
                es.set(m, (word.clone(), c));
                proof {
                    assert(entry_keys(entries_view(es@)) =~= entry_keys(entries_view(old_es)));
                    assert forall|n: int| 0 <= n < es@.len() implies last_count(
                        hv.take(i + 1),
                        (#[trigger] es@[n]).0@,
                    ) == Some(es@[n].1) by {
                        lemma_last_count_push(pre, e, es@[n].0@);
                        if n != m {
                            let ks = entry_keys(entries_view(old_es));
                            assert(ks[n] == old_es[n].0@);
                            assert(ks[m as int] == word@);
                        }
                    }
                    assert forall|x: Seq<char>| last_count(hv.take(i + 1), x) is Some implies #[trigger] index@.contains_key(x) by {
                        lemma_last_count_push(pre, e, x);
                        if x != e.0 {
                            assert(last_count(pre, x) is Some);
                        }
                    }
                }
            },
            None => {
                let ghost old_es = es@;
                let ghost old_index = index@;
                index.insert(word.clone(), es.len());
                es.push((word.clone(), c));
                proof {
                    lemma_indexes_push(old_index, old_es, (*word, c));
                    assert(es@ == old_es.push((*word, c)));
                    assert forall|n: int| 0 <= n < es@.len() implies last_count(
                        hv.take(i + 1),
                        (#[trigger] es@[n]).0@,
                    ) == Some(es@[n].1) by {
                        lemma_last_count_push(pre, e, es@[n].0@);
                        if n < old_es.len() {
                            assert(es@[n] == old_es[n]);
                            assert(old_index.contains_key(old_es[n].0@));
                        }
                    }
                    assert forall|x: Seq<char>| last_count(hv.take(i + 1), x) is Some implies #[trigger] index@.contains_key(x) by {
                        lemma_last_count_push(pre, e, x);
                        if x != e.0 {
                            assert(last_count(pre, x) is Some);
                            assert(old_index.contains_key(x));
                        }
                    }
                }
            },
        }
    }
    proof {
        assert(hv.take(head@.len() as int) =~= hv);
        assert(tv.take(0) =~= Seq::<Seq<char>>::empty());
        assert forall|x: Seq<char>| merged_count(hv, tv.take(0), x) is Some implies #[trigger] index@.contains_key(x) by {
            assert(last_count(hv.take(head@.len() as int), x) == last_count(hv, x));
        }
        assert forall|m: int| 0 <= m < es@.len() implies merged_count(hv, tv.take(0), (#[trigger] es@[m]).0@)
            == Some(es@[m].1) by {
            assert(last_count(hv.take(head@.len() as int), es@[m].0@) == last_count(hv, es@[m].0@));
        }
    }
    for j in 0..tail.len()
        invariant
            hv == entries_view(head@),
            tv == strings_view(tail@),
            tv.len() == tail@.len(),
            indexes(index@, es@),
            forall|m: int|
                0 <= m < es@.len() ==> merged_count(hv, tv.take(j as int), (#[trigger] es@[m]).0@)
                    == Some(es@[m].1),
            forall|x: Seq<char>|
                #![trigger index@.contains_key(x)]
                merged_count(hv, tv.take(j as int), x) is Some ==> index@.contains_key(x),
    {
        let ghost pre = tv.take(j as int);
        let ghost t = tv[j as int];
        proof {
            assert(tv.take(j + 1) =~= pre.push(t));
            assert(t == tail@[j as int]@);
            assert forall|x: Seq<char>| merged_count(hv, pre, x) is Some implies #[trigger] merged_count(
                hv,
                pre.push(t),
                x,
            ) == merged_count(hv, pre, x) by {
                if last_count(hv, x) is None {
                    let n = choose|n: int| 0 <= n < pre.len() && pre[n] == x;
                    assert(pre.push(t)[n] == x);
                }
            }
            assert forall|x: Seq<char>| x != t implies #[trigger] merged_count(hv, pre.push(t), x)
                == merged_count(hv, pre, x) by {
                if pre.push(t).contains(x) {
                    let n = choose|n: int| 0 <= n < pre.len() + 1 && pre.push(t)[n] == x;
                    assert(n < pre.len());
                    assert(pre[n] == x);
                }
                if pre.contains(x) {
                    let n = choose|n: int| 0 <= n < pre.len() && pre[n] == x;
                    assert(pre.push(t)[n] == x);
                }
            }
            assert(pre.push(t)[pre.len() as int] == t);
        }
        let word = &tail[j];
        if !index.contains_key(word.as_str()) {
            proof {
                assert(!index@.contains_key(t));
                if merged_count(hv, pre, t) is Some {
                    assert(index@.contains_key(t));
                }
            }
            let ghost old_es = es@;
            let ghost old_index = index@;
            index.insert(word.clone(), es.len());
            es.push((word.clone(), 1u64));
            proof {
                lemma_indexes_push(old_index, old_es, (*word, 1u64));
                assert(es@ == old_es.push((*word, 1u64)));
                assert forall|n: int| 0 <= n < es@.len() implies merged_count(
                    hv,
                    tv.take(j + 1),
                    (#[trigger] es@[n]).0@,
                ) == Some(es@[n].1) by {
                    if n < old_es.len() {
                        assert(es@[n] == old_es[n]);
                    }
                }
                assert forall|x: Seq<char>| merged_count(hv, tv.take(j + 1), x) is Some implies #[trigger] index@.contains_key(x) by {}
            }
        } else {
            proof {
                let k = index@[t];
                assert(es@[k as int].0@ == t);
                assert(merged_count(hv, pre, t) is Some);
                assert forall|n: int| 0 <= n < es@.len() implies merged_count(
                    hv,
                    tv.take(j + 1),
                    (#[trigger] es@[n]).0@,
                ) == Some(es@[n].1) by {}
                assert forall|x: Seq<char>| merged_count(hv, tv.take(j + 1), x) is Some implies #[trigger] index@.contains_key(x) by {}
            }
        }
    }
    proof {
        assert(tv.take(tail@.len() as int) =~= tv);
    }
    let ghost unsorted = es@;
    sort_by_rank(&mut es);
    proof {
        let ks = entry_keys(entries_view(unsorted));
        assert forall|a: int, b: int| 0 <= a < unsorted.len() && 0 <= b < unsorted.len() && a != b
            implies unsorted[a] != unsorted[b] by {
            assert(ks[a] == unsorted[a].0@);
            assert(ks[b] == unsorted[b].0@);
        }
        assert(unsorted.no_duplicates());
        unsorted.lemma_multiset_has_no_duplicates();
        es@.lemma_multiset_has_no_duplicates_conv();
        assert forall|i: int| 0 <= i < es@.len() implies merged_count(hv, tv, (#[trigger] es@[i]).0@)
            == Some(es@[i].1) by {
            assert(es@.contains(es@[i]));
            unsorted.to_multiset_ensures();
            es@.to_multiset_ensures();
            assert(es@.to_multiset().count(es@[i]) > 0);
            assert(unsorted.to_multiset().count(es@[i]) > 0);
            assert(unsorted.contains(es@[i]));
            let n = choose|n: int| 0 <= n < unsorted.len() && unsorted[n] == es@[i];
        }
        assert forall|w: Seq<char>| (#[trigger] merged_count(hv, tv, w)) is Some implies entry_keys(
            entries_view(es@),
        ).contains(w) by {
            assert(merged_count(hv, tv.take(tail@.len() as int), w) is Some);
            assert(index@.contains_key(w));
            let n = index@[w];
            assert(unsorted.contains(unsorted[n as int]));
            unsorted.to_multiset_ensures();
            es@.to_multiset_ensures();
            assert(unsorted.to_multiset().count(unsorted[n as int]) > 0);
            assert(es@.to_multiset().count(unsorted[n as int]) > 0);
            let m = choose|m: int| 0 <= m < es@.len() && es@[m] == unsorted[n as int];
            assert(entry_keys(entries_view(es@))[m] == w);
        }
        assert forall|i: int, j: int| 0 <= i < j < es@.len() implies ranks_above(
            word_entry(es@[i]),
            word_entry(es@[j]),
        ) by {
            unsorted.to_multiset_ensures();
            es@.to_multiset_ensures();
            assert(es@.contains(es@[i]));
            assert(es@.contains(es@[j]));
            assert(es@.to_multiset().count(es@[i]) > 0);
            assert(es@.to_multiset().count(es@[j]) > 0);
            assert(unsorted.contains(es@[i]));
            assert(unsorted.contains(es@[j]));
            let a = choose|a: int| 0 <= a < unsorted.len() && unsorted[a] == es@[i];
            let b = choose|b: int| 0 <= b < unsorted.len() && unsorted[b] == es@[j];
            assert(es@[i] != es@[j]);
            assert(a != b);
            assert(ks[a] == unsorted[a].0@);
            assert(ks[b] == unsorted[b].0@);
            assert(ks[a] != ks[b]);
            lemma_str_lt_total(es@[i].0@, es@[j].0@);
            assert(!ranks_above(word_entry(es@[j]), word_entry(es@[i])));
        }
    }
    es
}

} // verus!
