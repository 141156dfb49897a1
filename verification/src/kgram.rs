//! Transition counts of a character k-gram (Markov) model.
//!
//! A token is read with `k - 1` start markers before it and an end marker
//! after it; each of its characters, and the end marker, is an observation of
//! that character following the `k - 1` symbols before it. Training adds a
//! token's weight to the count of each of its observations. Turning counts
//! into smoothed probabilities is left to the caller.
use vstd::prelude::*;
use vstd::hash_map::StringHashMap;
use crate::text::{append_chars, chars_of, string_from, sub_chars};

verus! {

/// The marker read before a token (STX).
pub const START: char = '\u{2}';

/// The marker read after a token (ETX).
pub const END: char = '\u{3}';

/// A token with `k - 1` start markers before it and the end marker after it.
pub open spec fn padded(t: Seq<char>, k: nat) -> Seq<char> {
    Seq::new((k - 1) as nat, |i: int| START) + t + seq![END]
}

/// Whether observation `j` of the padded token `p` is `c` after `ctx`.
pub open spec fn observed_at(p: Seq<char>, k: nat, j: int, ctx: Seq<char>, c: char) -> bool {
    p.subrange(j, j + k - 1) == ctx && p[j + k - 1] == c
}

/// How many of the first `n` observations of `p` are `c` after `ctx`.
pub open spec fn occ(p: Seq<char>, k: nat, ctx: Seq<char>, c: char, n: nat) -> nat
    decreases n,
{
    if n == 0 {
        0
    } else {
        occ(p, k, ctx, c, (n - 1) as nat) + if observed_at(p, k, n - 1, ctx, c) {
            1nat
        } else {
            0nat
        }
    }
}

/// How often a token shows `c` after `ctx` (it has one observation per
/// character, and one for the end marker).
pub open spec fn occurrences(t: Seq<char>, k: nat, ctx: Seq<char>, c: char) -> nat {
    occ(padded(t, k), k, ctx, c, t.len() + 1)
}

/// How many of the first `n` observations of `p` have context `ctx`.
pub open spec fn ctx_occ(p: Seq<char>, k: nat, ctx: Seq<char>, n: nat) -> nat
    decreases n,
{
    if n == 0 {
        0
    } else {
        ctx_occ(p, k, ctx, (n - 1) as nat) + if p.subrange(n - 1, n - 1 + k - 1) == ctx {
            1nat
        } else {
            0nat
        }
    }
}

/// How often a token shows the context `ctx`.
pub open spec fn ctx_occurrences(t: Seq<char>, k: nat, ctx: Seq<char>) -> nat {
    ctx_occ(padded(t, k), k, ctx, t.len() + 1)
}

/// The weighted number of observations with context `ctx` over a corpus.
pub open spec fn corpus_ctx_count(corpus: Seq<(Seq<char>, u64)>, k: nat, ctx: Seq<char>) -> nat
    decreases corpus.len(),
{
    if corpus.len() == 0 {
        0
    } else {
        corpus_ctx_count(corpus.drop_last(), k, ctx) + (corpus.last().1 as nat) * ctx_occurrences(
            corpus.last().0,
            k,
            ctx,
        )
    }
}

/// The weighted count of `c` after `ctx` over a corpus of `(token, weight)`.
pub open spec fn corpus_count(corpus: Seq<(Seq<char>, u64)>, k: nat, ctx: Seq<char>, c: char) -> nat
    decreases corpus.len(),
{
    if corpus.len() == 0 {
        0
    } else {
        corpus_count(corpus.drop_last(), k, ctx, c) + (corpus.last().1 as nat) * occurrences(
            corpus.last().0,
            k,
            ctx,
            c,
        )
    }
}

/// The weighted number of observations in a corpus.
pub open spec fn corpus_weight(corpus: Seq<(Seq<char>, u64)>) -> nat
    decreases corpus.len(),
{
    if corpus.len() == 0 {
        0
    } else {
        corpus_weight(corpus.drop_last()) + (corpus.last().1 as nat) * (corpus.last().0.len() + 1)
    }
}

/// The characters observed in a corpus: those of every token of non-zero
/// weight, and the end marker if there is such a token.
pub open spec fn corpus_chars(corpus: Seq<(Seq<char>, u64)>) -> Set<char>
    decreases corpus.len(),
{
    if corpus.len() == 0 {
        Set::empty()
    } else if corpus.last().1 == 0 {
        corpus_chars(corpus.drop_last())
    } else {
        corpus_chars(corpus.drop_last()).union(corpus.last().0.to_set()).insert(END)
    }
}

/// A corpus by value.
pub open spec fn corpus_view(corpus: Seq<(String, u64)>) -> Seq<(Seq<char>, u64)> {
    corpus.map_values(|e: (String, u64)| (e.0@, e.1))
}

/// A table of counts by value: each context with its `(next, count)` list.
pub open spec fn table_view(t: Seq<(Vec<char>, Vec<(char, u64)>)>) -> Seq<(Seq<char>, Seq<(char, u64)>)> {
    t.map_values(|e: (Vec<char>, Vec<(char, u64)>)| (e.0@, e.1@))
}

/// The last position of `ctx` in the table.
pub open spec fn ctx_pos(t: Seq<(Seq<char>, Seq<(char, u64)>)>, ctx: Seq<char>) -> Option<int>
    decreases t.len(),
{
    if t.len() == 0 {
        None
    } else if t.last().0 == ctx {
        Some(t.len() - 1)
    } else {
        ctx_pos(t.drop_last(), ctx)
    }
}

/// The last position of `c` in a `(next, count)` list.
pub open spec fn next_pos(ns: Seq<(char, u64)>, c: char) -> Option<int>
    decreases ns.len(),
{
    if ns.len() == 0 {
        None
    } else if ns.last().0 == c {
        Some(ns.len() - 1)
    } else {
        next_pos(ns.drop_last(), c)
    }
}

/// The sum of the counts of a `(next, count)` list.
pub open spec fn inner_sum(ns: Seq<(char, u64)>) -> nat
    decreases ns.len(),
{
    if ns.len() == 0 {
        0
    } else {
        inner_sum(ns.drop_last()) + ns.last().1 as nat
    }
}

/// The sum of all counts of a table.
pub open spec fn table_sum(t: Seq<(Seq<char>, Seq<(char, u64)>)>) -> nat
    decreases t.len(),
{
    if t.len() == 0 {
        0
    } else {
        table_sum(t.drop_last()) + inner_sum(t.last().1)
    }
}

/// The count of `c` in a `(next, count)` list.
pub open spec fn list_count(ns: Seq<(char, u64)>, c: char) -> nat {
    match next_pos(ns, c) {
        Some(j) => ns[j].1 as nat,
        None => 0,
    }
}

/// The count of `c` after `ctx` in a table.
pub open spec fn table_count(t: Seq<(Seq<char>, Seq<(char, u64)>)>, ctx: Seq<char>, c: char) -> nat {
    match ctx_pos(t, ctx) {
        Some(i) => list_count(t[i].1, c),
        None => 0,
    }
}

/// The total count of all characters after `ctx` in a table.
pub open spec fn table_context_total(t: Seq<(Seq<char>, Seq<(char, u64)>)>, ctx: Seq<char>) -> nat {
    match ctx_pos(t, ctx) {
        Some(i) => inner_sum(t[i].1),
        None => 0,
    }
}

/// Why a k-gram model could not be made.
#[derive(Debug, Clone, Copy, PartialEq, Eq)]
pub enum KGramError {
    /// `k` must be at least 1.
    ZeroK,
}

/// The transition counts of a k-gram model: for each context of `k - 1`
/// symbols, how often each character followed it, and the set of characters
/// ever observed.
pub struct KGramCounts {
    k: usize,
    table: Vec<(Vec<char>, Vec<(char, u64)>)>,
    vocab: Vec<char>,
    index: StringHashMap<usize>,
}

impl KGramCounts {
    /// The order `k` of the model.
    pub closed spec fn order(&self) -> nat {
        self.k as nat
    }

    /// How often `c` followed `ctx` in training.
    pub closed spec fn count_of(&self, ctx: Seq<char>, c: char) -> nat {
        table_count(table_view(self.table@), ctx, c)
    }

    /// How many observations had context `ctx`.
    pub closed spec fn context_count(&self, ctx: Seq<char>) -> nat {
        table_context_total(table_view(self.table@), ctx)
    }

    /// The number of observations in training.
    pub closed spec fn total(&self) -> nat {
        table_sum(table_view(self.table@))
    }

    /// The characters observed in training.
    pub closed spec fn vocab_set(&self) -> Set<char> {
        self.vocab@.to_set()
    }

    /// The index maps each context of the table to its position.
    pub closed spec fn indexed(&self) -> bool {
        &&& forall|x: Seq<char>| #![trigger self.index@.contains_key(x)]
            self.index@.contains_key(x) <==> ctx_pos(table_view(self.table@), x) is Some
        &&& forall|x: Seq<char>| #![trigger self.index@.contains_key(x)]
            self.index@.contains_key(x) ==> ctx_pos(table_view(self.table@), x) == Some(
                self.index@[x] as int,
            )
    }

    /// The model's internal consistency: `k >= 1`, the vocabulary holds no
    /// character twice, every context's count fits in a `u64`, and the context
    /// index agrees with the table.
    pub closed spec fn wf(&self) -> bool {
        &&& self.k >= 1
        &&& self.vocab@.no_duplicates()
        &&& forall|x: Seq<char>| #[trigger] self.context_count(x) <= u64::MAX
        &&& self.indexed()
    }

    /// An untrained model of order `k`; `k` must be at least 1.
    pub fn new(k: usize) -> (r: Result<KGramCounts, KGramError>)
        ensures
            k == 0 ==> r == Err::<KGramCounts, KGramError>(KGramError::ZeroK),
            k >= 1 ==> (r matches Ok(m) && m.wf() && m.order() == k && m.total() == 0
                && m.vocab_set() == Set::<char>::empty() && forall|ctx: Seq<char>, c: char|
                m.count_of(ctx, c) == 0 && m.context_count(ctx) == 0),
    {
        if k == 0 {
            return Err(KGramError::ZeroK);
        }
        let m = KGramCounts {
            k,
            table: Vec::new(),
            vocab: Vec::new(),
            index: StringHashMap::new(),
        };
        assert(table_view(m.table@) =~= Seq::<(Seq<char>, Seq<(char, u64)>)>::empty());
        assert(m.vocab@.to_set() =~= Set::<char>::empty());
        Ok(m)
    }

    /// The order `k`.
    pub fn k(&self) -> (r: usize)
        ensures
            r == self.order(),
    {
        self.k
    }

    /// The number of distinct characters observed.
    pub fn vocab_size(&self) -> (r: usize)
        requires
            self.wf(),
        ensures
            r == self.vocab_set().len(),
    {
        proof {
            self.vocab@.unique_seq_to_set();
        }
        self.vocab.len()
    }
}

proof fn lemma_ctx_pos(t: Seq<(Seq<char>, Seq<(char, u64)>)>, x: Seq<char>)
    ensures
        ctx_pos(t, x) matches Some(i) ==> 0 <= i < t.len() && t[i].0 == x,
        ctx_pos(t, x) is None ==> forall|i: int| 0 <= i < t.len() ==> #[trigger] t[i].0 != x,
    decreases t.len(),
{
    if t.len() > 0 {
        lemma_ctx_pos(t.drop_last(), x);
        if t.last().0 != x {
            assert forall|i: int| 0 <= i < t.len() - 1 implies t[i] == t.drop_last()[i] by {}
        }
    }
}

proof fn lemma_next_pos(ns: Seq<(char, u64)>, c: char)
    ensures
        next_pos(ns, c) matches Some(j) ==> 0 <= j < ns.len() && ns[j].0 == c,
        next_pos(ns, c) is None ==> forall|j: int| 0 <= j < ns.len() ==> #[trigger] ns[j].0 != c,
    decreases ns.len(),
{
    if ns.len() > 0 {
        lemma_next_pos(ns.drop_last(), c);
        if ns.last().0 != c {
            assert forall|j: int| 0 <= j < ns.len() - 1 implies ns[j] == ns.drop_last()[j] by {}
        }
    }
}

proof fn lemma_ctx_pos_same_keys(
    t: Seq<(Seq<char>, Seq<(char, u64)>)>,
    u: Seq<(Seq<char>, Seq<(char, u64)>)>,
    x: Seq<char>,
)
    requires
        t.len() == u.len(),
        forall|i: int| 0 <= i < t.len() ==> #[trigger] t[i].0 == u[i].0,
    ensures
        ctx_pos(t, x) == ctx_pos(u, x),
    decreases t.len(),
{
    if t.len() > 0 {
        assert(t.last().0 == u.last().0);
        assert forall|i: int| 0 <= i < t.len() - 1 implies #[trigger] t.drop_last()[i].0 == u.drop_last()[i].0 by {
            assert(t.drop_last()[i] == t[i]);
            assert(u.drop_last()[i] == u[i]);
        }
        lemma_ctx_pos_same_keys(t.drop_last(), u.drop_last(), x);
    }
}

proof fn lemma_next_pos_same_keys(ns: Seq<(char, u64)>, ms: Seq<(char, u64)>, c: char)
    requires
        ns.len() == ms.len(),
        forall|j: int| 0 <= j < ns.len() ==> #[trigger] ns[j].0 == ms[j].0,
    ensures
        next_pos(ns, c) == next_pos(ms, c),
    decreases ns.len(),
{
    if ns.len() > 0 {
        assert(ns.last().0 == ms.last().0);
        assert forall|j: int| 0 <= j < ns.len() - 1 implies #[trigger] ns.drop_last()[j].0 == ms.drop_last()[j].0 by {
            assert(ns.drop_last()[j] == ns[j]);
            assert(ms.drop_last()[j] == ms[j]);
        }
        lemma_next_pos_same_keys(ns.drop_last(), ms.drop_last(), c);
    }
}

proof fn lemma_inner_sum_update(ns: Seq<(char, u64)>, j: int, e: (char, u64))
    requires
        0 <= j < ns.len(),
    ensures
        inner_sum(ns.update(j, e)) + ns[j].1 == inner_sum(ns) + e.1,
        ns[j].1 <= inner_sum(ns),
    decreases ns.len(),
{
    let u = ns.update(j, e);
    if j == ns.len() - 1 {
        assert(u.drop_last() =~= ns.drop_last());
    } else {
        assert(u.drop_last() =~= ns.drop_last().update(j, e));
        lemma_inner_sum_update(ns.drop_last(), j, e);
        assert(ns.drop_last()[j] == ns[j]);
    }
}

proof fn lemma_table_sum_update(
    t: Seq<(Seq<char>, Seq<(char, u64)>)>,
    i: int,
    e: (Seq<char>, Seq<(char, u64)>),
)
    requires
        0 <= i < t.len(),
    ensures
        table_sum(t.update(i, e)) + inner_sum(t[i].1) == table_sum(t) + inner_sum(e.1),
        inner_sum(t[i].1) <= table_sum(t),
    decreases t.len(),
{
    let u = t.update(i, e);
    if i == t.len() - 1 {
        assert(u.drop_last() =~= t.drop_last());
    } else {
        assert(u.drop_last() =~= t.drop_last().update(i, e));
        lemma_table_sum_update(t.drop_last(), i, e);
        assert(t.drop_last()[i] == t[i]);
    }
}

/// Raising the count of a character already in a list.
proof fn lemma_list_set(ns: Seq<(char, u64)>, j: int, c: char, w: u64)
    requires
        next_pos(ns, c) == Some(j),
        ns[j].1 + w <= u64::MAX,
    ensures
        forall|y: char|
            #[trigger] list_count(ns.update(j, (c, (ns[j].1 + w) as u64)), y) == list_count(ns, y)
                + if y == c {
                w as nat
            } else {
                0nat
            },
        inner_sum(ns.update(j, (c, (ns[j].1 + w) as u64))) == inner_sum(ns) + w,
{
    let e = (c, (ns[j].1 + w) as u64);
    let ns2 = ns.update(j, e);
    lemma_next_pos(ns, c);
    lemma_inner_sum_update(ns, j, e);
    assert forall|y: char| #[trigger]
        list_count(ns2, y) == list_count(ns, y) + if y == c {
            w as nat
        } else {
            0nat
        } by {
        lemma_next_pos_same_keys(ns, ns2, y);
        lemma_next_pos(ns, y);
    }
}

/// Appending a character that is not yet in a list.
proof fn lemma_list_push(ns: Seq<(char, u64)>, c: char, w: u64)
    requires
        next_pos(ns, c) is None,
    ensures
        forall|y: char|
            #[trigger] list_count(ns.push((c, w)), y) == list_count(ns, y) + if y == c {
                w as nat
            } else {
                0nat
            },
        inner_sum(ns.push((c, w))) == inner_sum(ns) + w,
{
    let ns2 = ns.push((c, w));
    assert(ns2.drop_last() =~= ns);
    assert forall|y: char| #[trigger]
        list_count(ns2, y) == list_count(ns, y) + if y == c {
            w as nat
        } else {
            0nat
        } by {
        lemma_next_pos(ns, y);
        lemma_next_pos(ns, c);
    }
}

/// Replacing the list of a context that is in the table.
proof fn lemma_table_set(
    tv: Seq<(Seq<char>, Seq<(char, u64)>)>,
    i: int,
    ctx: Seq<char>,
    ns2: Seq<(char, u64)>,
    c: char,
    w: u64,
)
    requires
        ctx_pos(tv, ctx) == Some(i),
        forall|y: char|
            #[trigger] list_count(ns2, y) == list_count(tv[i].1, y) + if y == c {
                w as nat
            } else {
                0nat
            },
        inner_sum(ns2) == inner_sum(tv[i].1) + w,
    ensures
        forall|x: Seq<char>| #[trigger] ctx_pos(tv.update(i, (ctx, ns2)), x) == ctx_pos(tv, x),
        forall|x: Seq<char>, y: char|
            #[trigger] table_count(tv.update(i, (ctx, ns2)), x, y) == table_count(tv, x, y) + if x
                == ctx && y == c {
                w as nat
            } else {
                0nat
            },
        forall|x: Seq<char>|
            #[trigger] table_context_total(tv.update(i, (ctx, ns2)), x) == table_context_total(
                tv,
                x,
            ) + if x == ctx {
                w as nat
            } else {
                0nat
            },
        table_sum(tv.update(i, (ctx, ns2))) == table_sum(tv) + w,
{
    let tv2 = tv.update(i, (ctx, ns2));
    lemma_ctx_pos(tv, ctx);
    lemma_table_sum_update(tv, i, (ctx, ns2));
    assert forall|x: Seq<char>| #[trigger] ctx_pos(tv2, x) == ctx_pos(tv, x) by {
        lemma_ctx_pos_same_keys(tv, tv2, x);
    }
    assert forall|x: Seq<char>, y: char|
        #[trigger] table_count(tv2, x, y) == table_count(tv, x, y) + if x == ctx && y == c {
            w as nat
        } else {
            0nat
        } by {
        lemma_ctx_pos_same_keys(tv, tv2, x);
        lemma_ctx_pos(tv, x);
    }
    assert forall|x: Seq<char>|
        #[trigger] table_context_total(tv2, x) == table_context_total(tv, x) + if x == ctx {
            w as nat
        } else {
            0nat
        } by {
        lemma_ctx_pos_same_keys(tv, tv2, x);
        lemma_ctx_pos(tv, x);
    }
}

/// Appending a context that is not yet in the table.
proof fn lemma_table_push(
    tv: Seq<(Seq<char>, Seq<(char, u64)>)>,
    ctx: Seq<char>,
    ns2: Seq<(char, u64)>,
    c: char,
    w: u64,
)
    requires
        ctx_pos(tv, ctx) is None,
        forall|y: char|
            #[trigger] list_count(ns2, y) == if y == c {
                w as nat
            } else {
                0nat
            },
        inner_sum(ns2) == w,
    ensures
        forall|x: Seq<char>|
            #[trigger] ctx_pos(tv.push((ctx, ns2)), x) == if x == ctx {
                Some(tv.len() as int)
            } else {
                ctx_pos(tv, x)
            },
        forall|x: Seq<char>, y: char|
            #[trigger] table_count(tv.push((ctx, ns2)), x, y) == table_count(tv, x, y) + if x
                == ctx && y == c {
                w as nat
            } else {
                0nat
            },
        forall|x: Seq<char>|
            #[trigger] table_context_total(tv.push((ctx, ns2)), x) == table_context_total(tv, x)
                + if x == ctx {
                w as nat
            } else {
                0nat
            },
        table_sum(tv.push((ctx, ns2))) == table_sum(tv) + w,
{
    let tv2 = tv.push((ctx, ns2));
    assert(tv2.drop_last() =~= tv);
    assert forall|x: Seq<char>| #[trigger]
        ctx_pos(tv2, x) == if x == ctx {
            Some(tv.len() as int)
        } else {
            ctx_pos(tv, x)
        } by {}
    assert forall|x: Seq<char>, y: char|
        #[trigger] table_count(tv2, x, y) == table_count(tv, x, y) + if x == ctx && y == c {
            w as nat
        } else {
            0nat
        } by {
        lemma_ctx_pos(tv, x);
        assert(ctx_pos(tv2, x) == if x == ctx {
            Some(tv.len() as int)
        } else {
            ctx_pos(tv, x)
        });
    }
    assert forall|x: Seq<char>|
        #[trigger] table_context_total(tv2, x) == table_context_total(tv, x) + if x == ctx {
            w as nat
        } else {
            0nat
        } by {
        lemma_ctx_pos(tv, x);
        assert(ctx_pos(tv2, x) == if x == ctx {
            Some(tv.len() as int)
        } else {
            ctx_pos(tv, x)
        });
    }
}

/// A copy of a character sequence.
fn copy_chars(v: &[char]) -> (r: Vec<char>)
    ensures
        r@ == v@,
{
    let mut out: Vec<char> = Vec::new();
    for i in 0..v.len()
        invariant
            out@ == v@.take(i as int),
    {
        out.push(v[i]);
        assert(v@.take(i + 1) =~= v@.take(i as int).push(v@[i as int]));
    }
    assert(v@.take(v@.len() as int) =~= v@);
    out
}

/// A copy of a `(next, count)` list.
fn copy_counts(v: &Vec<(char, u64)>) -> (r: Vec<(char, u64)>)
    ensures
        r@ == v@,
{
    let mut out: Vec<(char, u64)> = Vec::new();
    for i in 0..v.len()
        invariant
            out@ == v@.take(i as int),
    {
        out.push(v[i]);
        assert(v@.take(i + 1) =~= v@.take(i as int).push(v@[i as int]));
    }
    assert(v@.take(v@.len() as int) =~= v@);
    out
}

fn find_next(ns: &Vec<(char, u64)>, c: char) -> (r: Option<usize>)
    ensures
        match r {
            Some(j) => next_pos(ns@, c) == Some(j as int),
            None => next_pos(ns@, c) is None,
        },
{
    let mut k: usize = ns.len();
    assert(ns@.take(k as int) =~= ns@);
    while k > 0
        invariant
            k <= ns@.len(),
            next_pos(ns@, c) == next_pos(ns@.take(k as int), c),
        decreases k,
    {
        let ghost t = ns@.take(k as int);
        assert(t.drop_last() =~= ns@.take(k - 1));
        assert(t.last() == ns@[k - 1]);
        if ns[k - 1].0 == c {
            return Some(k - 1);
        }
        k = k - 1;
    }
    assert(ns@.take(0) =~= Seq::<(char, u64)>::empty());
    None
}

fn chars_slice_eq(a: &[char], b: &[char]) -> (r: bool)
    ensures
        r == (a@ == b@),
{
    crate::text::chars_eq(a, b)
}

impl KGramCounts {
    fn find_ctx(&self, ctx: &[char]) -> (r: Option<usize>)
        requires
            self.indexed(),
        ensures
            match r {
                Some(i) => ctx_pos(table_view(self.table@), ctx@) == Some(i as int),
                None => ctx_pos(table_view(self.table@), ctx@) is None,
            },
    {
        let key = string_from(ctx);
        match self.index.get(key.as_str()) {
            Some(i) => {
                assert(self.index@.contains_key(ctx@));
                Some(*i)
            },
            None => {
                assert(!self.index@.contains_key(ctx@));
                None
            },
        }
    }

    /// Add `w` to the count of `c` after `ctx`.
    fn add(&mut self, ctx: &[char], c: char, w: u64)
        requires
            old(self).context_count(ctx@) + w <= u64::MAX,
            old(self).indexed(),
        ensures
            final(self).indexed(),
            forall|x: Seq<char>, y: char|
                #[trigger] final(self).count_of(x, y) == old(self).count_of(x, y) + if x == ctx@
                    && y == c {
                    w as nat
                } else {
                    0nat
                },
            forall|x: Seq<char>|
                #[trigger] final(self).context_count(x) == old(self).context_count(x) + if x
                    == ctx@ {
                    w as nat
                } else {
                    0nat
                },
            final(self).total() == old(self).total() + w,
            final(self).k == old(self).k,
            final(self).vocab@ == old(self).vocab@,
    {
        let ghost tv = table_view(self.table@);
        match self.find_ctx(ctx) {
            Some(i) => {
                proof {
                    lemma_ctx_pos(tv, ctx@);
                }
                let ghost ns = tv[i as int].1;
                assert(ns == self.table@[i as int].1@);
                proof {
                    lemma_table_sum_update(tv, i as int, tv[i as int]);
                }
                let mut inner = copy_counts(&self.table[i].1);
                match find_next(&inner, c) {
                    Some(j) => {
                        proof {
                            lemma_next_pos(ns, c);
                            lemma_inner_sum_update(ns, j as int, ns[j as int]);
                        }
                        let v = inner[j].1;
                        inner.set(j, (c, v + w));
                        proof {
                            lemma_list_set(ns, j as int, c, w);
                        }
                    },
                    None => {
                        inner.push((c, w));
                        proof {
                            lemma_list_push(ns, c, w);
                        }
                    },
                }
                let ghost ns2 = inner@;
                let key = copy_chars(ctx);
                self.table.set(i, (key, inner));
                assert(table_view(self.table@) =~= tv.update(i as int, (ctx@, ns2)));
                proof {
                    lemma_table_set(tv, i as int, ctx@, ns2, c, w);
                }
            },
            None => {
                let key = copy_chars(ctx);
                let mut inner: Vec<(char, u64)> = Vec::new();
                inner.push((c, w));
                let ghost empty = Seq::<(char, u64)>::empty();
                assert(inner@ =~= empty.push((c, w)));
                proof {
                    lemma_list_push(empty, c, w);
                }
                let ghost old_index = self.index@;
                self.index.insert(string_from(ctx), self.table.len());
                self.table.push((key, inner));
                assert(table_view(self.table@) =~= tv.push((ctx@, seq![(c, w)])));
                proof {
                    lemma_table_push(tv, ctx@, seq![(c, w)], c, w);
                    assert(!old_index.contains_key(ctx@));
                }
            },
        }
    }
}


proof fn lemma_mul_succ(w: nat, a: nat)
    ensures
        w * (a + 1) == w * a + w,
{
    assert(w * (a + 1) == w * a + w) by (nonlinear_arith);
}

proof fn lemma_mul_mono(w: nat, a: nat, b: nat)
    requires
        a <= b,
    ensures
        w * a <= w * b,
{
    assert(w * a <= w * b) by (nonlinear_arith)
        requires
            a <= b,
    ;
}

/// The sum of a prefix of a `(next, count)` list is at most the whole sum.
proof fn lemma_inner_sum_prefix(ns: Seq<(char, u64)>, j: int)
    requires
        0 <= j <= ns.len(),
    ensures
        inner_sum(ns.take(j)) <= inner_sum(ns),
    decreases ns.len(),
{
    if j < ns.len() {
        assert(ns.drop_last().take(j) =~= ns.take(j));
        lemma_inner_sum_prefix(ns.drop_last(), j);
    } else {
        assert(ns.take(j) =~= ns);
    }
}

proof fn lemma_ctx_occ_mono(p: Seq<char>, k: nat, x: Seq<char>, a: nat, b: nat)
    requires
        a <= b,
    ensures
        ctx_occ(p, k, x, a) <= ctx_occ(p, k, x, b),
    decreases b,
{
    if a < b {
        lemma_ctx_occ_mono(p, k, x, a, (b - 1) as nat);
    }
}

/// The weighted context counts of a prefix of a corpus are at most those of
/// the corpus.
proof fn lemma_corpus_ctx_count_prefix(c: Seq<(Seq<char>, u64)>, k: nat, x: Seq<char>, i: int)
    requires
        0 <= i <= c.len(),
    ensures
        corpus_ctx_count(c.take(i), k, x) <= corpus_ctx_count(c, k, x),
    decreases c.len(),
{
    if i < c.len() {
        assert(c.drop_last().take(i) =~= c.take(i));
        lemma_corpus_ctx_count_prefix(c.drop_last(), k, x, i);
    } else {
        assert(c.take(i) =~= c);
    }
}

/// A token with `k - 1` start markers before it and the end marker after it.
pub fn padded_chars(k: usize, t: &[char]) -> (r: Vec<char>)
    requires
        1 <= k,
        k + t@.len() <= usize::MAX,
    ensures
        r@ == padded(t@, k as nat),
{
    let mut out: Vec<char> = Vec::new();
    let mut i: usize = 0;
    while i < k - 1
        invariant
            1 <= k,
            i <= k - 1,
            out@ == Seq::new(i as nat, |j: int| START),
        decreases k - 1 - i,
    {
        out.push(START);
        i = i + 1;
        assert(out@ =~= Seq::new(i as nat, |j: int| START));
    }
    append_chars(&mut out, t);
    out.push(END);
    assert(out@ =~= padded(t@, k as nat));
    out
}

/// The observations of a token in order: for each of its characters, and
/// then the end marker, the `k - 1` symbols before it and the symbol itself.
pub fn observations(k: usize, t: &[char]) -> (r: Vec<(Vec<char>, char)>)
    requires
        1 <= k,
        k + t@.len() <= usize::MAX,
    ensures
        r@.len() == t@.len() + 1,
        forall|j: int|
            0 <= j <= t@.len() ==> (#[trigger] r@[j]).0@ == padded(t@, k as nat).subrange(
                j,
                j + k - 1,
            ) && r@[j].1 == padded(t@, k as nat)[j + k - 1],
{
    let p = padded_chars(k, t);
    let n = t.len() + 1;
    let mut out: Vec<(Vec<char>, char)> = Vec::new();
    for j in 0..n
        invariant
            1 <= k,
            k + t@.len() <= usize::MAX,
            n == t@.len() + 1,
            p@ == padded(t@, k as nat),
            p@.len() == k - 1 + n,
            out@.len() == j,
            forall|i: int|
                0 <= i < j ==> (#[trigger] out@[i]).0@ == p@.subrange(i, i + k - 1) && out@[i].1
                    == p@[i + k - 1],
    {
        let ctx = sub_chars(p.as_slice(), j, j + k - 1);
        out.push((ctx, p[j + k - 1]));
    }
    out
}

fn vocab_has(v: &Vec<char>, c: char) -> (r: bool)
    ensures
        r == v@.contains(c),
{
    for i in 0..v.len()
        invariant
            forall|j: int| 0 <= j < i ==> v@[j] != c,
    {
        if v[i] == c {
            return true;
        }
    }
    false
}

impl KGramCounts {
    /// Record `c` as observed.
    fn insert_vocab(&mut self, c: char)
        requires
            old(self).vocab@.no_duplicates(),
        ensures
            final(self).vocab@.no_duplicates(),
            final(self).vocab@.to_set() == old(self).vocab@.to_set().insert(c),
            final(self).k == old(self).k,
            final(self).table@ == old(self).table@,
            final(self).index@ == old(self).index@,
    {
        if !vocab_has(&self.vocab, c) {
            self.vocab.push(c);
            proof {
                old(self).vocab@.lemma_push_to_set_commute(c);
            }
        } else {
            assert(self.vocab@.to_set() =~= old(self).vocab@.to_set().insert(c));
        }
    }

    /// Add `w` for each observation of the token `t`.
    fn observe_token(&mut self, t: &[char], w: u64)
        requires
            old(self).wf(),
            forall|x: Seq<char>|
                old(self).context_count(x) + (w as nat) * ctx_occurrences(t@, old(self).order(), x)
                    <= u64::MAX,
            old(self).order() + t@.len() <= usize::MAX,
        ensures
            final(self).wf(),
            final(self).order() == old(self).order(),
            forall|x: Seq<char>, y: char|
                #[trigger] final(self).count_of(x, y) == old(self).count_of(x, y) + (w as nat)
                    * occurrences(t@, old(self).order(), x, y),
            forall|x: Seq<char>|
                #[trigger] final(self).context_count(x) == old(self).context_count(x) + (w as nat)
                    * ctx_occurrences(t@, old(self).order(), x),
            final(self).total() == old(self).total() + (w as nat) * (t@.len() + 1),
            final(self).vocab_set() == old(self).vocab_set().union(t@.to_set().insert(END)),
    {
        let obs = observations(self.k, t);
        let ghost s0 = *self;
        let ghost k = self.k as nat;
        let ghost pp = padded(t@, k);
        let ghost n = t@.len() + 1;
        assert((w as nat) * 0nat == 0) by (nonlinear_arith);
        for j in 0..obs.len()
            invariant
                obs@.len() == n,
                n == t@.len() + 1,
                k == s0.k,
                k >= 1,
                pp == padded(t@, k),
                forall|i: int|
                    0 <= i < n ==> (#[trigger] obs@[i]).0@ == pp.subrange(i, i + k - 1)
                        && obs@[i].1 == pp[i + k - 1],
                self.k == s0.k,
                self.vocab@.no_duplicates(),
                self.indexed(),
                self.total() == s0.total() + (w as nat) * j,
                forall|x: Seq<char>|
                    s0.context_count(x) + (w as nat) * #[trigger] ctx_occ(pp, k, x, n) <= u64::MAX,
                forall|x: Seq<char>, y: char|
                    #[trigger] self.count_of(x, y) == s0.count_of(x, y) + (w as nat) * occ(
                        pp,
                        k,
                        x,
                        y,
                        j as nat,
                    ),
                forall|x: Seq<char>|
                    #[trigger] self.context_count(x) == s0.context_count(x) + (w as nat) * ctx_occ(
                        pp,
                        k,
                        x,
                        j as nat,
                    ),
                self.vocab@.to_set() == s0.vocab@.to_set().union(
                    pp.subrange(k - 1, k - 1 + j).to_set(),
                ),
        {
            proof {
                let x0 = obs@[j as int].0@;
                assert(x0 == pp.subrange(j as int, j + k - 1));
                assert(ctx_occ(pp, k, x0, (j + 1) as nat) == ctx_occ(pp, k, x0, j as nat) + 1);
                lemma_ctx_occ_mono(pp, k, x0, (j + 1) as nat, n);
                lemma_mul_succ(w as nat, ctx_occ(pp, k, x0, j as nat));
                lemma_mul_mono(w as nat, ctx_occ(pp, k, x0, (j + 1) as nat), ctx_occ(pp, k, x0, n));
                lemma_mul_succ(w as nat, j as nat);
                assert(s0.context_count(x0) + (w as nat) * ctx_occ(pp, k, x0, n) <= u64::MAX);
            }
            let ghost pre = *self;
            let ch = obs[j].1;
            self.add(obs[j].0.as_slice(), ch, w);
            let ghost mid = *self;
            self.insert_vocab(ch);
            proof {
                let ctx = obs@[j as int].0@;
                assert(ctx == pp.subrange(j as int, j + k - 1));
                assert(ch == pp[j + k - 1]);
                assert(self.total() == mid.total());
                assert forall|x: Seq<char>, y: char|
                    #[trigger] self.count_of(x, y) == s0.count_of(x, y) + (w as nat) * occ(
                        pp,
                        k,
                        x,
                        y,
                        (j + 1) as nat,
                    ) by {
                    assert(self.count_of(x, y) == mid.count_of(x, y));
                    assert(pre.count_of(x, y) == s0.count_of(x, y) + (w as nat) * occ(
                        pp,
                        k,
                        x,
                        y,
                        j as nat,
                    ));
                    lemma_mul_succ(w as nat, occ(pp, k, x, y, j as nat));
                }
                assert forall|x: Seq<char>|
                    #[trigger] self.context_count(x) == s0.context_count(x) + (w as nat) * ctx_occ(
                        pp,
                        k,
                        x,
                        (j + 1) as nat,
                    ) by {
                    assert(self.context_count(x) == mid.context_count(x));
                    assert(pre.context_count(x) == s0.context_count(x) + (w as nat) * ctx_occ(
                        pp,
                        k,
                        x,
                        j as nat,
                    ));
                    lemma_mul_succ(w as nat, ctx_occ(pp, k, x, j as nat));
                }
                let a = pp.subrange(k - 1, k - 1 + j);
                assert(pp.subrange(k - 1, k - 1 + j + 1) =~= a.push(ch));
                a.lemma_push_to_set_commute(ch);
                assert(self.vocab@.to_set() =~= s0.vocab@.to_set().union(
                    pp.subrange(k - 1, k - 1 + j + 1).to_set(),
                ));
            }
        }
        proof {
            assert(pp.subrange(k - 1, k - 1 + n) =~= t@.push(END));
            t@.lemma_push_to_set_commute(END);
        }
    }

    /// Train on a corpus of `(token, weight)` pairs; tokens of weight 0 are
    /// skipped. Each context's count after training must fit in a `u64`, as
    /// the smoothed probabilities sum a context's counts.
    #[verifier::spinoff_prover]
    pub fn train(&mut self, corpus: &[(String, u64)])
        requires
            old(self).wf(),
            forall|x: Seq<char>|
                old(self).context_count(x) + corpus_ctx_count(corpus_view(corpus@), old(self).order(), x)
                    <= u64::MAX,
            forall|i: int|
                0 <= i < corpus@.len() ==> old(self).order() + (#[trigger] corpus@[i]).0@.len()
                    <= usize::MAX,
        ensures
            final(self).wf(),
            final(self).order() == old(self).order(),
            forall|x: Seq<char>, y: char|
                #[trigger] final(self).count_of(x, y) == old(self).count_of(x, y) + corpus_count(
                    corpus_view(corpus@),
                    old(self).order(),
                    x,
                    y,
                ),
            forall|x: Seq<char>|
                #[trigger] final(self).context_count(x) == old(self).context_count(x)
                    + corpus_ctx_count(corpus_view(corpus@), old(self).order(), x),
            final(self).total() == old(self).total() + corpus_weight(corpus_view(corpus@)),
            final(self).vocab_set() == old(self).vocab_set().union(
                corpus_chars(corpus_view(corpus@)),
            ),
    {
        let ghost s0 = *self;
        let ghost cv = corpus_view(corpus@);
        let ghost k = self.k as nat;
        for i in 0..corpus.len()
            invariant
                cv == corpus_view(corpus@),
                cv.len() == corpus@.len(),
                k == s0.k,
                forall|x: Seq<char>|
                    s0.context_count(x) + #[trigger] corpus_ctx_count(cv, k, x) <= u64::MAX,
                forall|m: int|
                    0 <= m < corpus@.len() ==> k + (#[trigger] corpus@[m]).0@.len()
                        <= usize::MAX,
                self.wf(),
                self.k == s0.k,
                forall|x: Seq<char>, y: char|
                    #[trigger] self.count_of(x, y) == s0.count_of(x, y) + corpus_count(
                        cv.take(i as int),
                        k,
                        x,
                        y,
                    ),
                forall|x: Seq<char>|
                    #[trigger] self.context_count(x) == s0.context_count(x) + corpus_ctx_count(
                        cv.take(i as int),
                        k,
                        x,
                    ),
                self.total() == s0.total() + corpus_weight(cv.take(i as int)),
                self.vocab_set() == s0.vocab_set().union(corpus_chars(cv.take(i as int))),
        {
            let ghost pre = cv.take(i as int);
            let ghost cur = cv.take(i + 1);
            proof {
                assert(cur.drop_last() =~= pre);
                assert(cur.last() == cv[i as int]);
                assert(cv[i as int] == (corpus@[i as int].0@, corpus@[i as int].1));
                assert forall|x: Seq<char>|
                    self.context_count(x) + (corpus@[i as int].1 as nat) * ctx_occurrences(
                        corpus@[i as int].0@,
                        k,
                        x,
                    ) <= u64::MAX by {
                    lemma_corpus_ctx_count_prefix(cv, k, x, i + 1);
                    assert(corpus_ctx_count(cv, k, x) >= corpus_ctx_count(cur, k, x));
                }
            }
            let w = corpus[i].1;
            if w != 0 {
                let tok = chars_of(&corpus[i].0);
                self.observe_token(tok.as_slice(), w);
                proof {
                    assert(self.vocab_set() =~= s0.vocab_set().union(corpus_chars(cur)));
                }
            } else {
                proof {
                    let len = corpus@[i as int].0@.len();
                    assert((w as nat) * (len + 1) == 0) by (nonlinear_arith)
                        requires
                            w == 0,
                    ;
                    assert forall|x: Seq<char>, y: char|
                        #[trigger] self.count_of(x, y) == s0.count_of(x, y) + corpus_count(
                            cur,
                            k,
                            x,
                            y,
                        ) by {
                        let o = occurrences(cur.last().0, k, x, y);
                        assert((cur.last().1 as nat) * o == 0) by (nonlinear_arith)
                            requires
                                cur.last().1 == 0,
                        ;
                        assert(corpus_count(cur, k, x, y) == corpus_count(pre, k, x, y));
                    }
                    assert forall|x: Seq<char>|
                        #[trigger] self.context_count(x) == s0.context_count(x) + corpus_ctx_count(
                            cur,
                            k,
                            x,
                        ) by {
                        let o = ctx_occurrences(cur.last().0, k, x);
                        assert((cur.last().1 as nat) * o == 0) by (nonlinear_arith)
                            requires
                                cur.last().1 == 0,
                        ;
                        assert(corpus_ctx_count(cur, k, x) == corpus_ctx_count(pre, k, x));
                    }
                }
            }
        }
        proof {
            assert(cv.take(corpus@.len() as int) =~= cv);
        }
    }

    /// How often `c` followed `ctx` in training.
    pub fn count(&self, ctx: &[char], c: char) -> (r: u64)
        requires
            self.wf(),
        ensures
            r == self.count_of(ctx@, c),
    {
        let ghost tv = table_view(self.table@);
        match self.find_ctx(ctx) {
            Some(i) => {
                proof {
                    lemma_ctx_pos(tv, ctx@);
                }
                assert(tv[i as int].1 == self.table@[i as int].1@);
                match find_next(&self.table[i].1, c) {
                    Some(j) => {
                        proof {
                            lemma_next_pos(tv[i as int].1, c);
                        }
                        self.table[i].1[j].1
                    },
                    None => 0,
                }
            },
            None => 0,
        }
    }

    /// How many observations had the context `ctx`.
    pub fn context_total(&self, ctx: &[char]) -> (r: u64)
        requires
            self.wf(),
        ensures
            r == self.context_count(ctx@),
    {
        let ghost tv = table_view(self.table@);
        match self.find_ctx(ctx) {
            Some(i) => {
                proof {
                    lemma_ctx_pos(tv, ctx@);
                    lemma_table_sum_update(tv, i as int, tv[i as int]);
                }
                let ns = &self.table[i].1;
                assert(tv[i as int].1 == ns@);
                assert(self.context_count(ctx@) == inner_sum(ns@));
                let mut acc: u64 = 0;
                for j in 0..ns.len()
                    invariant
                        acc == inner_sum(ns@.take(j as int)),
                        inner_sum(ns@) <= u64::MAX,
                {
                    proof {
                        assert(ns@.take(j + 1).drop_last() =~= ns@.take(j as int));
                        lemma_inner_sum_prefix(ns@, j + 1);
                    }
                    acc = acc + ns[j].1;
                }
                assert(ns@.take(ns@.len() as int) =~= ns@);
                acc
            },
            None => 0,
        }
    }
}

} // verus!
