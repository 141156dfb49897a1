//! Entropy-accounted style presets: the casing each preset gives words, the
//! separator and suffix a uniform draw selects, how many equally likely
//! choices each draw has, and the word-pool sizes and presets compared.
use vstd::prelude::*;
use crate::passphrase::{style_spec, CaseMode, SampleStyle};
use crate::text::{chars_eq, chars_of, digit_char};

verus! {

/// How many equally likely strings a well-known gap, prefix or suffix
/// pattern matches: one digit, two digits, one of `! ? _ -`, or one digit or
/// symbol of the separator set.
pub open spec fn nominal_choices_spec(pattern: Seq<char>) -> Option<nat> {
    if pattern == "[0-9]"@ {
        Some(10)
    } else if pattern == "[0-9]{2}"@ {
        Some(100)
    } else if pattern == "[!?_\\-]"@ {
        Some(4)
    } else if pattern == "[0-9!@#$%^&*_\\-]"@ {
        Some(20)
    } else {
        None
    }
}

/// How many equally likely strings `pattern` matches, for the well-known
/// patterns of the presets; `None` for any other pattern.
pub fn nominal_choices(pattern: &str) -> (r: Option<u32>)
    ensures
        r matches Some(n) ==> nominal_choices_spec(pattern@) == Some(n as nat),
        r is None <==> nominal_choices_spec(pattern@) is None,
{
    let p = chars_of(pattern);
    if chars_eq(p.as_slice(), chars_of("[0-9]").as_slice()) {
        Some(10)
    } else if chars_eq(p.as_slice(), chars_of("[0-9]{2}").as_slice()) {
        Some(100)
    } else if chars_eq(p.as_slice(), chars_of("[!?_\\-]").as_slice()) {
        Some(4)
    } else if chars_eq(p.as_slice(), chars_of("[0-9!@#$%^&*_\\-]").as_slice()) {
        Some(20)
    } else {
        None
    }
}

/// The patterns a preset fills in when none is given match exactly as many
/// strings as the preset's uniform draws choose from: the gap pattern of
/// the separator presets as many as `separator_choices_spec`, the suffix
/// pattern of the login presets as many as `suffix_choices_spec`. So the
/// entropy counted for a preset's patterns and for its uniform draws agree.
pub proof fn preset_patterns_match_choices(
    style: SampleStyle,
    v: (Seq<char>, Option<Seq<char>>, CaseMode, Option<Seq<char>>, Option<Seq<char>>),
)
    ensures
        (style == SampleStyle::Numbers || style == SampleStyle::NumbersSymbols) && v.1 is None
            ==> (style_spec(style, v).1 matches Some(p) && nominal_choices_spec(p) == Some(
            separator_choices_spec(style),
        )),
        (style == SampleStyle::LoginTitle2Digits || style == SampleStyle::LoginTitleEndPunct)
            && v.4 is None ==> (style_spec(style, v).4 matches Some(p) && nominal_choices_spec(p)
            == Some(suffix_choices_spec(style))),
{
    reveal_strlit("[0-9]");
    reveal_strlit("[0-9]{2}");
    reveal_strlit("[!?_\\-]");
    reveal_strlit("[0-9!@#$%^&*_\\-]");
    let d1 = "[0-9]"@;
    let d2 = "[0-9]{2}"@;
    let pu = "[!?_\\-]"@;
    let ds = "[0-9!@#$%^&*_\\-]"@;
    assert(d1.len() == 5 && d2.len() == 8 && pu.len() == 7 && ds.len() == 16);
    assert(d2 != d1);
    assert(pu != d1 && pu != d2);
    assert(ds != d1 && ds != d2 && ds != pu);
}

/// The position of a preset in the list of presets, from zero.
pub open spec fn style_index_spec(style: SampleStyle) -> u64 {
    match style {
        SampleStyle::Custom => 0,
        SampleStyle::Spaces => 1,
        SampleStyle::Hyphens => 2,
        SampleStyle::Numbers => 3,
        SampleStyle::NumbersSymbols => 4,
        SampleStyle::LoginTitle2Digits => 5,
        SampleStyle::LoginTitleEndPunct => 6,
    }
}

/// The position of a preset in the list of presets, from zero.
pub fn style_index(style: SampleStyle) -> (r: u64)
    ensures
        r == style_index_spec(style),
{
    match style {
        SampleStyle::Custom => 0,
        SampleStyle::Spaces => 1,
        SampleStyle::Hyphens => 2,
        SampleStyle::Numbers => 3,
        SampleStyle::NumbersSymbols => 4,
        SampleStyle::LoginTitle2Digits => 5,
        SampleStyle::LoginTitleEndPunct => 6,
    }
}

/// The seed for one compared configuration: the given seed with the pool
/// size shifted left by one and the preset's position shifted left by 48
/// mixed in by exclusive or.
pub fn config_seed(seed: u64, pool: usize, style: SampleStyle) -> (r: u64)
    ensures
        r == seed ^ ((pool as u64) << 1u64) ^ (style_index_spec(style) << 48u64),
{
    let p: u64 = pool as u64;
    seed ^ (p << 1u64) ^ (style_index(style) << 48u64)
}

/// The word-pool sizes compared when none are asked for.
pub open spec fn default_pool_sizes_spec() -> Seq<usize> {
    seq![1024usize, 2048, 4096, 8192, 16384, 32768]
}

/// `x`, but at most `len`.
pub open spec fn clamp_to(x: usize, len: usize) -> usize {
    if x < len {
        x
    } else {
        len
    }
}

/// Whether `v` is a pool size that `asked` calls for: some size of at least
/// two, clamped to the word-list length.
pub open spec fn pool_size_asked(asked: Seq<usize>, len: usize, v: usize) -> bool {
    exists|i: int| 0 <= i < asked.len() && asked[i] >= 2 && v == clamp_to(asked[i], len)
}

/// Whether every element is below the next.
pub open spec fn strictly_increasing(s: Seq<usize>) -> bool {
    forall|i: int, j: int| 0 <= i < j < s.len() ==> s[i] < s[j]
}

fn insert_sorted(v: &mut Vec<usize>, x: usize)
    requires
        strictly_increasing(old(v)@),
    ensures
        strictly_increasing(final(v)@),
        forall|y: usize| final(v)@.contains(y) <==> (old(v)@.contains(y) || y == x),
{
    let ghost before = v@;
    let mut p: usize = 0;
    while p < v.len() && v[p] < x
        invariant
            v@ == before,
            p <= v@.len(),
            forall|k: int| 0 <= k < p ==> v@[k] < x,
        decreases v@.len() - p,
    {
        p = p + 1;
    }
    if p < v.len() && v[p] == x {
        return;
    }
    v.insert(p, x);
    proof {
        let after = v@;
        assert(after =~= before.insert(p as int, x));
        assert forall|i: int, j: int| 0 <= i < j < after.len() implies after[i] < after[j] by {
            if j < p {
            } else if j == p {
            } else if i < p {
                assert(after[j] == before[j - 1]);
                assert(before[p as int] > x);
                assert(before[p as int] <= before[j - 1]);
            } else if i == p {
                assert(after[j] == before[j - 1]);
                assert(before[p as int] <= before[j - 1]);
            } else {
                assert(after[j] == before[j - 1]);
                assert(after[i] == before[i - 1]);
            }
        }
        assert forall|y: usize| after.contains(y) implies (before.contains(y) || y == x) by {
            let k = choose|k: int| 0 <= k < after.len() && after[k] == y;
            if k < p {
                assert(before[k] == y);
            } else if k > p {
                assert(before[k - 1] == y);
            }
        }
        assert forall|y: usize| (before.contains(y) || y == x) implies after.contains(y) by {
            if y == x {
                assert(after[p as int] == x);
            } else {
                let k = choose|k: int| 0 <= k < before.len() && before[k] == y;
                if k < p {
                    assert(after[k] == y);
                } else {
                    assert(after[k + 1] == y);
                }
            }
        }
    }
}

fn collect_pool_sizes(asked: &[usize], len: usize) -> (r: Vec<usize>)
    ensures
        strictly_increasing(r@),
        forall|v: usize| r@.contains(v) <==> pool_size_asked(asked@, len, v),
{
    let mut r: Vec<usize> = Vec::new();
    for i in 0..asked.len()
        invariant
            strictly_increasing(r@),
            forall|v: usize| r@.contains(v) <==> pool_size_asked(asked@.take(i as int), len, v),
    {
        let ghost prev = r@;
        let x = asked[i];
        if x >= 2 {
            let c = if x < len {
                x
            } else {
                len
            };
            insert_sorted(&mut r, c);
        }
        let ghost t0 = asked@.take(i as int);
        let ghost t1 = asked@.take(i + 1);
        assert forall|v: usize| r@.contains(v) <==> pool_size_asked(t1, len, v) by {
            if pool_size_asked(t0, len, v) {
                let k = choose|k: int| 0 <= k < t0.len() && t0[k] >= 2 && v == clamp_to(t0[k], len);
                assert(t1[k] == t0[k]);
            }
            if x >= 2 && v == clamp_to(x, len) {
                assert(t1[i as int] == x);
            }
            if pool_size_asked(t1, len, v) {
                let k = choose|k: int| 0 <= k < t1.len() && t1[k] >= 2 && v == clamp_to(t1[k], len);
                if k < i {
                    assert(t0[k] == t1[k]);
                }
            }
        }
    }
    assert(asked@.take(asked@.len() as int) =~= asked@);
    r
}

/// The word-pool sizes to compare: those asked for (the defaults when none
/// are), dropping sizes below two, clamping each to the word-list length
/// `len`, in increasing order without repeats.
pub fn pool_sizes(asked: &[usize], len: usize) -> (r: Vec<usize>)
    ensures
        strictly_increasing(r@),
        forall|v: usize|
            r@.contains(v) <==> pool_size_asked(
                if asked@.len() == 0 {
                    default_pool_sizes_spec()
                } else {
                    asked@
                },
                len,
                v,
            ),
{
    if asked.len() == 0 {
        let d: Vec<usize> = vec![1024usize, 2048, 4096, 8192, 16384, 32768];
        assert(d@ =~= default_pool_sizes_spec());
        collect_pool_sizes(d.as_slice(), len)
    } else {
        collect_pool_sizes(asked, len)
    }
}

/// The presets compared when none are asked for.
pub open spec fn default_compared_styles() -> Seq<SampleStyle> {
    seq![
        SampleStyle::Hyphens,
        SampleStyle::Numbers,
        SampleStyle::NumbersSymbols,
        SampleStyle::LoginTitle2Digits,
    ]
}

/// The presets to compare: those asked for, or the defaults when none are.
/// `None` when one of them is `Custom`, whose entropy is not accounted for.
pub fn compared_styles(asked: &[SampleStyle]) -> (r: Option<Vec<SampleStyle>>)
    ensures
        r is None <==> asked@.contains(SampleStyle::Custom),
        r matches Some(v) ==> v@ == (if asked@.len() == 0 {
            default_compared_styles()
        } else {
            asked@
        }),
{
    if asked.len() == 0 {
        let d: Vec<SampleStyle> = vec![
            SampleStyle::Hyphens,
            SampleStyle::Numbers,
            SampleStyle::NumbersSymbols,
            SampleStyle::LoginTitle2Digits,
        ];
        assert(d@ =~= default_compared_styles());
        return Some(d);
    }
    let mut out: Vec<SampleStyle> = Vec::new();
    for i in 0..asked.len()
        invariant
            out@ == asked@.take(i as int),
            !asked@.take(i as int).contains(SampleStyle::Custom),
    {
        let st = asked[i];
        if let SampleStyle::Custom = st {
            assert(asked@[i as int] == SampleStyle::Custom);
            return None;
        }
        out.push(st);
        assert(asked@.take(i + 1) =~= asked@.take(i as int).push(st));
    }
    assert(asked@.take(asked@.len() as int) =~= asked@);
    Some(out)
}

/// The casing a preset gives each word.
pub open spec fn style_case_spec(style: SampleStyle) -> CaseMode {
    match style {
        SampleStyle::LoginTitle2Digits | SampleStyle::LoginTitleEndPunct => CaseMode::Title,
        _ => CaseMode::Lower,
    }
}

/// The casing a preset gives each word.
pub fn style_case(style: SampleStyle) -> (r: CaseMode)
    ensures
        r == style_case_spec(style),
{
    match style {
        SampleStyle::LoginTitle2Digits | SampleStyle::LoginTitleEndPunct => CaseMode::Title,
        _ => CaseMode::Lower,
    }
}

/// The symbols that may separate words besides digits.
pub open spec fn separator_symbols() -> Seq<char> {
    seq!['!', '@', '#', '$', '%', '^', '&', '*', '_', '-']
}

/// The characters that may end a title-cased login phrase.
pub open spec fn end_punctuation() -> Seq<char> {
    seq!['!', '?', '_', '-']
}

/// How many equally likely separators a preset draws from between two words.
pub open spec fn separator_choices_spec(style: SampleStyle) -> nat {
    match style {
        SampleStyle::Numbers => 10,
        SampleStyle::NumbersSymbols => 20,
        _ => 1,
    }
}

/// The separator that a draw selects between two words.
pub open spec fn uniform_separator_spec(style: SampleStyle, draw: nat) -> Option<char> {
    match style {
        SampleStyle::Hyphens => Some('-'),
        SampleStyle::Spaces => Some(' '),
        SampleStyle::Numbers => Some(digit_char(draw % 10)),
        SampleStyle::NumbersSymbols => {
            let r = draw % 20;
            if r < 10 {
                Some(digit_char(r))
            } else {
                Some(separator_symbols()[r - 10])
            }
        },
        _ => None,
    }
}

/// How many equally likely suffixes a preset draws from.
pub open spec fn suffix_choices_spec(style: SampleStyle) -> nat {
    match style {
        SampleStyle::LoginTitle2Digits => 100,
        SampleStyle::LoginTitleEndPunct => 4,
        _ => 1,
    }
}

/// The suffix that a draw selects.
pub open spec fn uniform_suffix_spec(style: SampleStyle, draw: nat) -> Seq<char> {
    match style {
        SampleStyle::LoginTitle2Digits => {
            let x = draw % 100;
            seq![digit_char(x / 10), digit_char(x % 10)]
        },
        SampleStyle::LoginTitleEndPunct => seq![end_punctuation()[(draw % 4) as int]],
        _ => Seq::empty(),
    }
}

/// How many equally likely separators a preset draws from between two words.
pub fn separator_choices(style: SampleStyle) -> (r: u32)
    ensures
        r == separator_choices_spec(style),
{
    match style {
        SampleStyle::Numbers => 10,
        SampleStyle::NumbersSymbols => 20,
        _ => 1,
    }
}

/// How many equally likely suffixes a preset draws from.
pub fn suffix_choices(style: SampleStyle) -> (r: u32)
    ensures
        r == suffix_choices_spec(style),
{
    match style {
        SampleStyle::LoginTitle2Digits => 100,
        SampleStyle::LoginTitleEndPunct => 4,
        _ => 1,
    }
}

fn digit(d: u32) -> (c: char)
    requires
        d < 10,
    ensures
        c == digit_char(d as nat),
{
    let b: u8 = d as u8;
    (b + 48u8) as char
}

/// The separator that the random number `draw` selects between two words:
/// a fixed character for spaces and hyphens, a digit from `draw % 10`, or a
/// digit or symbol from `draw % 20`; none for the run-together presets.
pub fn uniform_separator(style: SampleStyle, draw: u32) -> (r: Option<char>)
    ensures
        r == uniform_separator_spec(style, draw as nat),
{
    match style {
        SampleStyle::Hyphens => Some('-'),
        SampleStyle::Spaces => Some(' '),
        SampleStyle::Numbers => Some(digit(draw % 10)),
        SampleStyle::NumbersSymbols => {
            let r = draw % 20;
            if r < 10 {
                Some(digit(r))
            } else {
                let c = match r {
                    10 => '!',
                    11 => '@',
                    12 => '#',
                    13 => '$',
                    14 => '%',
                    15 => '^',
                    16 => '&',
                    17 => '*',
                    18 => '_',
                    _ => '-',
                };
                Some(c)
            }
        },
        _ => None,
    }
}

/// The suffix that the random number `draw` selects: two digits from
/// `draw % 100`, zero-padded, or one of `! ? _ -` from `draw % 4`; empty for
/// the other presets.
pub fn uniform_suffix(style: SampleStyle, draw: u32) -> (r: String)
    ensures
        r@ == uniform_suffix_spec(style, draw as nat),
{
    let mut out: Vec<char> = Vec::new();
    match style {
        SampleStyle::LoginTitle2Digits => {
            let x = draw % 100;
            out.push(digit(x / 10));
            out.push(digit(x % 10));
        },
        SampleStyle::LoginTitleEndPunct => {
            let c = match draw % 4 {
                0 => '!',
                1 => '?',
                2 => '_',
                _ => '-',
            };
            out.push(c);
        },
        _ => {},
    }
    let ghost expect = uniform_suffix_spec(style, draw as nat);
    assert(out@ =~= expect);
    crate::text::string_from(out.as_slice())
}

proof fn lemma_digit_char_injective(x: nat, y: nat)
    requires
        x < 10,
        y < 10,
    ensures
        (digit_char(x) == digit_char(y)) <==> x == y,
        digit_char(x) as u32 == 48 + x,
{
}

/// Under every preset, two draws give the same separator exactly when they
/// agree modulo the preset's number of separator choices: a draw uniform
/// modulo that number makes each of that many separators equally likely.
pub proof fn separator_outcomes_match_choices(style: SampleStyle, a: nat, b: nat)
    ensures
        (uniform_separator_spec(style, a) == uniform_separator_spec(style, b)) <==> (a
            % separator_choices_spec(style) == b % separator_choices_spec(style)),
{
    match style {
        SampleStyle::Numbers => {
            lemma_digit_char_injective(a % 10, b % 10);
        },
        SampleStyle::NumbersSymbols => {
            let ra = a % 20;
            let rb = b % 20;
            if ra < 10 {
                lemma_digit_char_injective(ra, 0);
            }
            if rb < 10 {
                lemma_digit_char_injective(rb, 0);
            }
            if ra < 10 && rb < 10 {
                lemma_digit_char_injective(ra, rb);
            }
        },
        _ => {},
    }
}

/// Under every preset, two draws give the same suffix exactly when they agree
/// modulo the preset's number of suffix choices.
pub proof fn suffix_outcomes_match_choices(style: SampleStyle, a: nat, b: nat)
    ensures
        (uniform_suffix_spec(style, a) == uniform_suffix_spec(style, b)) <==> (a
            % suffix_choices_spec(style) == b % suffix_choices_spec(style)),
{
    match style {
        SampleStyle::LoginTitle2Digits => {
            let xa = a % 100;
            let xb = b % 100;
            lemma_digit_char_injective(xa / 10, xb / 10);
            lemma_digit_char_injective(xa % 10, xb % 10);
            if uniform_suffix_spec(style, a) == uniform_suffix_spec(style, b) {
                assert(uniform_suffix_spec(style, a)[0] == uniform_suffix_spec(style, b)[0]);
                assert(uniform_suffix_spec(style, a)[1] == uniform_suffix_spec(style, b)[1]);
            }
        },
        SampleStyle::LoginTitleEndPunct => {
            if uniform_suffix_spec(style, a) == uniform_suffix_spec(style, b) {
                assert(uniform_suffix_spec(style, a)[0] == uniform_suffix_spec(style, b)[0]);
            }
        },
        _ => {
            assert(uniform_suffix_spec(style, a) =~= uniform_suffix_spec(style, b));
        },
    }
}

} // verus!
