//! Collision counting and frequency ranking of sampled generator outputs.
//!
//! Outcome counts are passed as `(outcome, count)` pairs, one per distinct
//! outcome.
use vstd::prelude::*;
use crate::text::chars_of;

verus! {

/// `x` clamped to the largest `u64`.
pub open spec fn saturate_u64(x: int) -> int {
    if x > u64::MAX {
        u64::MAX as int
    } else {
        x
    }
}

/// The number of unordered pairs among `n` draws, \(\binom{n}{2}\), computed
/// as `n * (n - 1) / 2` with the product saturating at `u64::MAX`.
pub open spec fn n_pairs_spec(n: nat) -> nat {
    let m = if n == 0 {
        0
    } else {
        n * ((n - 1) as nat)
    };
    (saturate_u64(m as int) / 2) as nat
}

/// \(\binom{c}{2}\) for one count.
pub open spec fn choose2(c: nat) -> nat {
    if c == 0 {
        0
    } else {
        (c * ((c - 1) as nat) / 2) as nat
    }
}

/// Number of equal pairs among `n` draws: \(\binom{n}{2}\), saturating.
pub fn n_pairs(n: u64) -> (r: u64)
    ensures
        r == n_pairs_spec(n as nat),
{
    let m: u64 = if n == 0 {
        0
    } else {
        match n.checked_mul(n - 1) {
            Some(p) => p,
            None => u64::MAX,
        }
    };
    m / 2
}

/// The sum of \(\binom{c_s}{2}\) over the counts.
pub open spec fn pairs_sum(counts: Seq<(String, u32)>) -> nat
    decreases counts.len(),
{
    if counts.len() == 0 {
        0
    } else {
        pairs_sum(counts.drop_last()) + choose2(counts.last().1 as nat)
    }
}

/// The total of the counts.
pub open spec fn count_sum(counts: Seq<(String, u32)>) -> nat
    decreases counts.len(),
{
    if counts.len() == 0 {
        0
    } else {
        count_sum(counts.drop_last()) + counts.last().1 as nat
    }
}

proof fn lemma_choose2_u32(c: u32)
    ensures
        choose2(c as nat) < 0x8000_0000_0000_0000,
{
    if c > 0 {
        assert(c * (c - 1) <= 0xFFFF_FFFF * 0xFFFF_FFFE) by (nonlinear_arith)
            requires
                0 < c <= 0xFFFF_FFFF,
        ;
    }
}

/// Observed collision pairs from outcome counts: \(\sum_s \binom{c_s}{2}\).
/// The total must fit in a `u64` (summing past it overflows).
pub fn collision_pairs(counts: &[(String, u32)]) -> (r: u64)
    requires
        pairs_sum(counts@) <= u64::MAX,
    ensures
        r == pairs_sum(counts@),
{
    let mut total: u64 = 0;
    for i in 0..counts.len()
        invariant
            pairs_sum(counts@) <= u64::MAX,
            total == pairs_sum(counts@.take(i as int)),
    {
        assert(counts@.take(i + 1).drop_last() =~= counts@.take(i as int));
        proof {
            lemma_pairs_sum_prefix(counts@, i + 1);
        }
        let c = counts[i].1 as u64;
        proof {
            lemma_choose2_u32(counts[i as int].1);
        }
        let term: u64 = if c == 0 {
            0
        } else {
            c * (c - 1) / 2
        };
        total = total + term;
    }
    assert(counts@.take(counts@.len() as int) =~= counts@);
    total
}

/// Observed collision pairs, checked: `Some` of the sum exactly when it fits
/// in a `u64`, else `None`.
pub fn collision_pairs_checked(counts: &[(String, u32)]) -> (r: Option<u64>)
    ensures
        r == (if pairs_sum(counts@) <= u64::MAX {
            Some(pairs_sum(counts@) as u64)
        } else {
            None::<u64>
        }),
{
    let mut total: u64 = 0;
    for i in 0..counts.len()
        invariant
            total == pairs_sum(counts@.take(i as int)),
    {
        assert(counts@.take(i + 1).drop_last() =~= counts@.take(i as int));
        proof {
            lemma_choose2_u32(counts[i as int].1);
        }
        let c = counts[i].1 as u64;
        let term: u64 = if c == 0 {
            0
        } else {
            c * (c - 1) / 2
        };
        match total.checked_add(term) {
            Some(t) => total = t,
            None => {
                proof {
                    lemma_pairs_sum_prefix(counts@, i + 1);
                }
                return None;
            },
        }
    }
    assert(counts@.take(counts@.len() as int) =~= counts@);
    Some(total)
}

proof fn lemma_pairs_sum_prefix(s: Seq<(String, u32)>, k: int)
    requires
        0 <= k <= s.len(),
    ensures
        pairs_sum(s.take(k)) <= pairs_sum(s),
    decreases s.len() - k,
{
    if k < s.len() {
        assert(s.drop_last().take(k) =~= s.take(k));
        lemma_pairs_sum_prefix(s.drop_last(), k);
    } else {
        assert(s.take(k) =~= s);
    }
}

proof fn lemma_choose2_add(a: nat, b: nat)
    ensures
        choose2(a) + choose2(b) <= choose2(a + b),
{
    let s = a + b;
    if a > 0 && b > 0 {
        assert(a * ((a - 1) as nat) + b * ((b - 1) as nat) + 2 * a * b == s * ((s - 1) as nat))
            by (nonlinear_arith)
            requires
                s == a + b,
                a > 0,
                b > 0,
        ;
        assert(a * ((a - 1) as nat) / 2 + b * ((b - 1) as nat) / 2 <= s * ((s - 1) as nat) / 2)
            by (nonlinear_arith)
            requires
                a * ((a - 1) as nat) + b * ((b - 1) as nat) + 2 * a * b == s * ((s - 1) as nat),
                a > 0,
                b > 0,
        ;
    }
}

proof fn lemma_pairs_sum_le(counts: Seq<(String, u32)>)
    ensures
        pairs_sum(counts) <= choose2(count_sum(counts)),
    decreases counts.len(),
{
    if counts.len() > 0 {
        lemma_pairs_sum_le(counts.drop_last());
        lemma_choose2_add(count_sum(counts.drop_last()), counts.last().1 as nat);
    }
}

/// Among `n` draws there are at least as many pairs as there are equal pairs:
/// the collision pairs of counts summing to `n` never exceed `n_pairs(n)`.
/// This holds wherever the collision pairs are at most `u64::MAX / 2`, the
/// value at which `n_pairs` saturates; beyond it the bound fails.
pub proof fn collision_pairs_at_most_n_pairs(counts: Seq<(String, u32)>)
    requires
        pairs_sum(counts) <= u64::MAX / 2,
    ensures
        pairs_sum(counts) <= n_pairs_spec(count_sum(counts)),
{
    lemma_pairs_sum_le(counts);
    let n = count_sum(counts);
    if n > 0 {
        let m = n * ((n - 1) as nat);
        if m <= u64::MAX {
            assert(choose2(n) == m / 2);
        } else {
            assert(saturate_u64(m as int) == u64::MAX);
        }
    }
}

/// More draws never give fewer pairs: `n_pairs` is monotone in the number of
/// draws (saturation included), so a zero-collision bound built on it can only
/// tighten as samples are added.
pub proof fn n_pairs_monotone(n1: nat, n2: nat)
    requires
        n1 <= n2,
    ensures
        n_pairs_spec(n1) <= n_pairs_spec(n2),
{
    if n1 > 0 {
        assert(n1 * ((n1 - 1) as nat) <= n2 * ((n2 - 1) as nat)) by (nonlinear_arith)
            requires
                1 <= n1 <= n2,
        ;
    }
}

/// Lexicographic order of character sequences by code point, which is the
/// byte order of their UTF-8 encodings (the order of `String`).
pub open spec fn str_lt(a: Seq<char>, b: Seq<char>) -> bool
    decreases a.len(),
{
    if a.len() == 0 {
        b.len() > 0
    } else if b.len() == 0 {
        false
    } else if a[0] != b[0] {
        a[0] < b[0]
    } else {
        str_lt(a.drop_first(), b.drop_first())
    }
}

pub(crate) proof fn lemma_str_lt_irrefl(a: Seq<char>)
    ensures
        !str_lt(a, a),
    decreases a.len(),
{
    if a.len() > 0 {
        lemma_str_lt_irrefl(a.drop_first());
    }
}

pub(crate) proof fn lemma_str_lt_total(a: Seq<char>, b: Seq<char>)
    ensures
        a != b ==> str_lt(a, b) || str_lt(b, a),
        !(str_lt(a, b) && str_lt(b, a)),
    decreases a.len(),
{
    if a.len() > 0 && b.len() > 0 {
        if a[0] == b[0] {
            lemma_str_lt_total(a.drop_first(), b.drop_first());
            assert(str_lt(a, b) == str_lt(a.drop_first(), b.drop_first()));
            assert(str_lt(b, a) == str_lt(b.drop_first(), a.drop_first()));
            if a.drop_first() == b.drop_first() {
                assert forall|i: int| 0 <= i < a.len() implies a[i] == b[i] by {
                    if i > 0 {
                        assert(a[i] == a.drop_first()[i - 1]);
                        assert(b[i] == b.drop_first()[i - 1]);
                    }
                }
                assert(a =~= b);
            }
        }
    } else if a.len() == 0 && b.len() == 0 {
        assert(a =~= b);
    }
}

proof fn lemma_str_lt_skip(a: Seq<char>, b: Seq<char>, i: int)
    requires
        0 <= i <= a.len(),
        i <= b.len(),
        a.take(i) == b.take(i),
    ensures
        str_lt(a, b) == str_lt(a.skip(i), b.skip(i)),
    decreases i,
{
    if i > 0 {
        assert(a[0] == a.take(i)[0]);
        assert(b[0] == b.take(i)[0]);
        assert(a.drop_first().take(i - 1) =~= a.take(i).drop_first());
        assert(b.drop_first().take(i - 1) =~= b.take(i).drop_first());
        lemma_str_lt_skip(a.drop_first(), b.drop_first(), i - 1);
        assert(a.drop_first().skip(i - 1) =~= a.skip(i));
        assert(b.drop_first().skip(i - 1) =~= b.skip(i));
    } else {
        assert(a.skip(0) =~= a);
        assert(b.skip(0) =~= b);
    }
}

/// Whether `a` comes before `b` in string order.
pub fn string_lt(a: &str, b: &str) -> (r: bool)
    ensures
        r == str_lt(a@, b@),
{
    let x = chars_of(a);
    let y = chars_of(b);
    let mut i: usize = 0;
    while i < x.len() && i < y.len() && x[i] == y[i]
        invariant
            i <= x@.len(),
            i <= y@.len(),
            x@ == a@,
            y@ == b@,
            x@.take(i as int) == y@.take(i as int),
        decreases x@.len() - i,
    {
        assert(x@.take(i + 1) =~= x@.take(i as int).push(x@[i as int]));
        assert(y@.take(i + 1) =~= y@.take(i as int).push(y@[i as int]));
        i = i + 1;
    }
    proof {
        lemma_str_lt_skip(x@, y@, i as int);
    }
    if i == x.len() {
        i < y.len()
    } else if i == y.len() {
        false
    } else {
        x[i] < y[i]
    }
}

/// An outcome with its count, by value.
pub open spec fn entry_view(p: (String, u32)) -> (Seq<char>, u32) {
    (p.0@, p.1)
}

/// The counts by value.
pub open spec fn counts_view(s: Seq<(String, u32)>) -> Seq<(Seq<char>, u32)> {
    s.map_values(|p: (String, u32)| entry_view(p))
}

/// Whether `x` ranks before `y`: a higher count first, equal counts by outcome.
pub open spec fn ranks_before(x: (Seq<char>, u32), y: (Seq<char>, u32)) -> bool {
    x.1 > y.1 || (x.1 == y.1 && str_lt(x.0, y.0))
}

/// Whether no outcome occurs twice.
pub open spec fn distinct_outcomes(s: Seq<(String, u32)>) -> bool {
    forall|i: int, j: int| 0 <= i < j < s.len() ==> s[i].0@ != s[j].0@
}

pub(crate) proof fn lemma_str_lt_trans(a: Seq<char>, b: Seq<char>, c: Seq<char>)
    requires
        str_lt(a, b),
        str_lt(b, c),
    ensures
        str_lt(a, c),
    decreases a.len(),
{
    if a.len() > 0 && b.len() > 0 && c.len() > 0 && a[0] == b[0] && b[0] == c[0] {
        lemma_str_lt_trans(a.drop_first(), b.drop_first(), c.drop_first());
    }
}

proof fn lemma_ranks_trans(x: (Seq<char>, u32), y: (Seq<char>, u32), z: (Seq<char>, u32))
    requires
        ranks_before(x, y),
        ranks_before(y, z),
    ensures
        ranks_before(x, z),
{
    if x.1 == y.1 && y.1 == z.1 {
        lemma_str_lt_trans(x.0, y.0, z.0);
    }
}

proof fn lemma_ranks_total(x: (Seq<char>, u32), y: (Seq<char>, u32))
    requires
        x.0 != y.0,
    ensures
        ranks_before(x, y) || ranks_before(y, x),
        !(ranks_before(x, y) && ranks_before(y, x)),
{
    lemma_str_lt_total(x.0, y.0);
}

/// Extract the `k` most frequent outcomes, by descending count, ties broken by
/// outcome in ascending order. The result is fully determined: it is sorted
/// by rank, taken from the counts, and every outcome left out ranks after every
/// outcome taken.
pub fn top_k_counts(counts: &[(String, u32)], k: usize) -> (r: Vec<(String, u32)>)
    requires
        distinct_outcomes(counts@),
    ensures
        r@.len() == (if k < counts@.len() {
            k as int
        } else {
            counts@.len() as int
        }),
        forall|i: int, j: int|
            0 <= i < j < r@.len() ==> ranks_before(entry_view(r@[i]), entry_view(r@[j])),
        forall|i: int| 0 <= i < r@.len() ==> counts_view(counts@).contains(entry_view(r@[i])),
        forall|x: (Seq<char>, u32)|
            counts_view(counts@).contains(x) && !counts_view(r@).contains(x) ==> forall|i: int|
                0 <= i < r@.len() ==> ranks_before(entry_view(r@[i]), x),
{
    let n = counts.len();
    let limit: usize = if k < n {
        k
    } else {
        n
    };
    let ghost cv = counts_view(counts@);
    let mut rest: Vec<(String, u32)> = Vec::new();
    for j in 0..n
        invariant
            n == counts@.len(),
            rest@.len() == j,
            forall|t: int| 0 <= t < j ==> entry_view(#[trigger] rest@[t]) == entry_view(counts@[t]),
    {
        let name = counts[j].0.clone();
        rest.push((name, counts[j].1));
    }
    assert(counts_view(rest@) =~= cv);
    assert forall|j: int| 0 <= j < rest@.len() implies cv.contains(entry_view(#[trigger] rest@[j]))
        by {
        assert(cv[j] == entry_view(rest@[j]));
    }
    let mut r: Vec<(String, u32)> = Vec::new();
    let mut round: usize = 0;
    while round < limit
        invariant
            n == counts@.len(),
            cv == counts_view(counts@),
            limit <= n,
            round <= limit,
            r@.len() == round,
            rest@.len() == n - round,
            distinct_outcomes(rest@),
            forall|i: int, j: int|
                0 <= i < j < r@.len() ==> ranks_before(entry_view(r@[i]), entry_view(r@[j])),
            forall|i: int| 0 <= i < r@.len() ==> cv.contains(entry_view(#[trigger] r@[i])),
            forall|j: int| 0 <= j < rest@.len() ==> cv.contains(entry_view(#[trigger] rest@[j])),
            forall|x: (Seq<char>, u32)|
                #[trigger] cv.contains(x) ==> counts_view(r@).contains(x) || counts_view(
                    rest@,
                ).contains(x),
            forall|i: int, j: int|
                0 <= i < r@.len() && 0 <= j < rest@.len() ==> ranks_before(
                    entry_view(#[trigger] r@[i]),
                    entry_view(#[trigger] rest@[j]),
                ),
        decreases limit - round,
    {
        let m = rest.len();
        let mut best: usize = 0;
        for t in 1..m
            invariant
                m == rest@.len(),
                m > 0,
                best < t,
                best < m,
                distinct_outcomes(rest@),
                forall|u: int|
                    0 <= u < t && u != best ==> ranks_before(
                        entry_view(rest@[best as int]),
                        entry_view(#[trigger] rest@[u]),
                    ),
        {
            let tc = rest[t].1;
            let bc = rest[best].1;
            let better = tc > bc || (tc == bc && string_lt(rest[t].0.as_str(), rest[best].0.as_str()));
            proof {
                lemma_ranks_total(entry_view(rest@[t as int]), entry_view(rest@[best as int]));
            }
            if better {
                proof {
                    assert forall|u: int|
                        0 <= u < t + 1 && u != t implies ranks_before(
                        entry_view(rest@[t as int]),
                        entry_view(#[trigger] rest@[u]),
                    ) by {
                        if u != best {
                            lemma_ranks_trans(
                                entry_view(rest@[t as int]),
                                entry_view(rest@[best as int]),
                                entry_view(rest@[u]),
                            );
                        }
                    }
                }
                best = t;
            }
        }
        let ghost old_rest = rest@;
        let ghost old_r = r@;
        let b = rest.remove(best);
        proof {
            old_rest.remove_ensures(best as int);
        }
        r.push(b);
        let ghost bv = entry_view(b);
        assert(bv == entry_view(old_rest[best as int]));
        assert forall|i: int, j: int|
            0 <= i < j < r@.len() implies ranks_before(entry_view(r@[i]), entry_view(r@[j])) by {
            if j == r@.len() - 1 {
                assert(r@[j] == b);
                assert(r@[i] == old_r[i]);
                assert(ranks_before(entry_view(old_r[i]), entry_view(old_rest[best as int])));
            } else {
                assert(r@[i] == old_r[i]);
                assert(r@[j] == old_r[j]);
            }
        }
        assert forall|i: int| 0 <= i < r@.len() implies cv.contains(entry_view(#[trigger] r@[i])) by {
            if i == r@.len() - 1 {
                assert(cv.contains(entry_view(old_rest[best as int])));
            } else {
                assert(r@[i] == old_r[i]);
            }
        }
        assert forall|j: int| 0 <= j < rest@.len() implies cv.contains(
            entry_view(#[trigger] rest@[j]),
        ) by {
            if j < best {
                assert(rest@[j] == old_rest[j]);
            } else {
                assert(rest@[j] == old_rest[j + 1]);
            }
        }
        assert forall|i: int, j: int|
            0 <= i < rest@.len() && 0 <= j < rest@.len() && i < j implies rest@[i].0@
            != rest@[j].0@ by {
            let oi = if i < best {
                i
            } else {
                i + 1
            };
            let oj = if j < best {
                j
            } else {
                j + 1
            };
            assert(rest@[i] == old_rest[oi]);
            assert(rest@[j] == old_rest[oj]);
        }
        assert forall|i: int, j: int|
            0 <= i < r@.len() && 0 <= j < rest@.len() implies ranks_before(
            entry_view(#[trigger] r@[i]),
            entry_view(#[trigger] rest@[j]),
        ) by {
            let oj = if j < best {
                j
            } else {
                j + 1
            };
            assert(rest@[j] == old_rest[oj]);
            if i == r@.len() - 1 {
                assert(r@[i] == b);
                assert(oj != best);
            } else {
                assert(r@[i] == old_r[i]);
            }
        }
        assert forall|x: (Seq<char>, u32)| #[trigger] cv.contains(x) implies counts_view(
            r@,
        ).contains(x) || counts_view(rest@).contains(x) by {
            if counts_view(old_r).contains(x) {
                let i = choose|i: int| 0 <= i < old_r.len() && counts_view(old_r)[i] == x;
                assert(counts_view(r@)[i] == x);
            } else {
                assert(counts_view(old_rest).contains(x));
                let j = choose|j: int| 0 <= j < old_rest.len() && counts_view(old_rest)[j] == x;
                if j == best {
                    assert(counts_view(r@)[r@.len() - 1] == x);
                } else if j < best {
                    assert(counts_view(rest@)[j] == x);
                } else {
                    assert(counts_view(rest@)[j - 1] == x);
                }
            }
        }
        round = round + 1;
    }
    assert forall|x: (Seq<char>, u32)|
        counts_view(counts@).contains(x) && !counts_view(r@).contains(x) implies forall|i: int|
        0 <= i < r@.len() ==> ranks_before(entry_view(r@[i]), x) by {
        assert(cv.contains(x));
        let j = choose|j: int| 0 <= j < rest@.len() && counts_view(rest@)[j] == x;
        assert(entry_view(rest@[j]) == x);
    }
    r
}

} // verus!
