//! Keyboard-hand and letter-class grouping of graphemes, used for
//! structured back-off in personalized timing models.
use vstd::prelude::*;
use crate::text::{ascii_lower_char, chars_of, lower_char};

verus! {

/// Lightweight QWERTY-ish hand classification for ASCII letters.
#[derive(Debug, Clone, Copy, PartialEq, Eq, Hash, Structural)]
pub enum Hand {
    Left,
    Right,
    Other,
}

/// Vowel / consonant classification for ASCII letters.
#[derive(Debug, Clone, Copy, PartialEq, Eq, Hash, Structural)]
pub enum CharClass {
    Vowel,
    Consonant,
    Other,
}

/// The lowercased character of a grapheme that is a single one-byte (ASCII)
/// character, if it is one.
pub open spec fn single_ascii_lower(g: Seq<char>) -> Option<char> {
    if g.len() == 1 && g[0] <= '\u{7f}' {
        Some(ascii_lower_char(g[0]))
    } else {
        None
    }
}

/// Keys typed by the left hand on a US QWERTY layout.
pub open spec fn left_key(c: char) -> bool {
    c == 'q' || c == 'w' || c == 'e' || c == 'r' || c == 't' || c == 'a' || c == 's' || c == 'd'
        || c == 'f' || c == 'g' || c == 'z' || c == 'x' || c == 'c' || c == 'v' || c == 'b'
}

/// Keys typed by the right hand on a US QWERTY layout.
pub open spec fn right_key(c: char) -> bool {
    c == 'y' || c == 'u' || c == 'i' || c == 'o' || c == 'p' || c == 'h' || c == 'j' || c == 'k'
        || c == 'l' || c == 'n' || c == 'm'
}

/// The hand of a grapheme: only single ASCII letters have one.
pub open spec fn hand_spec(g: Seq<char>) -> Hand {
    match single_ascii_lower(g) {
        Some(c) => if left_key(c) {
            Hand::Left
        } else if right_key(c) {
            Hand::Right
        } else {
            Hand::Other
        },
        None => Hand::Other,
    }
}

/// The letter class of a grapheme: only single ASCII letters have one.
pub open spec fn class_spec(g: Seq<char>) -> CharClass {
    match single_ascii_lower(g) {
        Some(c) => if c == 'a' || c == 'e' || c == 'i' || c == 'o' || c == 'u' {
            CharClass::Vowel
        } else if 'a' <= c <= 'z' {
            CharClass::Consonant
        } else {
            CharClass::Other
        },
        None => CharClass::Other,
    }
}

/// The grapheme as a single lowercased ASCII character, if it is one byte.
fn single_ascii(g: &str) -> (r: Option<char>)
    ensures
        r == single_ascii_lower(g@),
{
    let cs = chars_of(g);
    if cs.len() == 1 && cs[0] <= '\u{7f}' {
        Some(lower_char(cs[0]))
    } else {
        None
    }
}

/// Which hand types a grapheme on a US QWERTY keyboard (rough split).
pub fn hand_of_grapheme(g: &str) -> (r: Hand)
    ensures
        r == hand_spec(g@),
{
    match single_ascii(g) {
        Some(c) => {
            if c == 'q' || c == 'w' || c == 'e' || c == 'r' || c == 't' || c == 'a' || c == 's'
                || c == 'd' || c == 'f' || c == 'g' || c == 'z' || c == 'x' || c == 'c' || c
                == 'v' || c == 'b' {
                Hand::Left
            } else if c == 'y' || c == 'u' || c == 'i' || c == 'o' || c == 'p' || c == 'h' || c
                == 'j' || c == 'k' || c == 'l' || c == 'n' || c == 'm' {
                Hand::Right
            } else {
                Hand::Other
            }
        },
        None => Hand::Other,
    }
}

/// Whether a grapheme is a vowel, a consonant, or neither.
pub fn class_of_grapheme(g: &str) -> (r: CharClass)
    ensures
        r == class_spec(g@),
{
    match single_ascii(g) {
        Some(c) => {
            if c == 'a' || c == 'e' || c == 'i' || c == 'o' || c == 'u' {
                CharClass::Vowel
            } else if 'a' <= c && c <= 'z' {
                CharClass::Consonant
            } else {
                CharClass::Other
            }
        },
        None => CharClass::Other,
    }
}

/// On a US QWERTY keyboard the left hand types `q w e r t a s d f g z x c v b`
/// and the right hand `y u i o p h j k l n m`, capitals included; a grapheme
/// that is not a single ASCII letter has no hand.
pub proof fn qwerty_hands(c: char)
    ensures
        (c == 'q' || c == 'w' || c == 'e' || c == 'r' || c == 't' || c == 'a' || c == 's' || c == 'd'
            || c == 'f' || c == 'g' || c == 'z' || c == 'x' || c == 'c' || c == 'v' || c == 'b')
            ==> hand_spec(seq![c]) == Hand::Left && hand_spec(seq![((c as u32) - 32) as char])
            == Hand::Left,
        (c == 'y' || c == 'u' || c == 'i' || c == 'o' || c == 'p' || c == 'h' || c == 'j' || c == 'k'
            || c == 'l' || c == 'n' || c == 'm') ==> hand_spec(seq![c]) == Hand::Right && hand_spec(
            seq![((c as u32) - 32) as char],
        ) == Hand::Right,
        !('a' <= c <= 'z' || 'A' <= c <= 'Z') ==> hand_spec(seq![c]) == Hand::Other,
{
    if 'a' <= c <= 'z' {
        let u = ((c as u32) - 32) as char;
        assert(seq![u][0] == u);
        assert(u <= '\u{7f}');
        assert('A' <= u <= 'Z');
        assert(ascii_lower_char(u) == c);
    }
    assert(seq![c][0] == c);
}

/// The two groupings agree on what a letter is: a grapheme has a letter class
/// exactly when it has a hand, since the two halves of the keyboard cover the
/// whole alphabet.
pub proof fn letter_class_iff_hand(g: Seq<char>)
    ensures
        (class_spec(g) != CharClass::Other) <==> (hand_spec(g) != Hand::Other),
{
}

/// Whether a character is typed with Shift on a US keyboard: an ASCII
/// capital or one of the shifted symbols `! @ # $ % ^ & * ( ) _ + { } | : " < > ?`.
pub open spec fn shifted_us(c: char) -> bool {
    ('A' <= c <= 'Z') || c == '!' || c == '@' || c == '#' || c == '$' || c == '%' || c == '^'
        || c == '&' || c == '*' || c == '(' || c == ')' || c == '_' || c == '+' || c == '{' || c
        == '}' || c == '|' || c == ':' || c == '"' || c == '<' || c == '>' || c == '?'
}

/// The number of shifted characters among the first `n` of `s`.
pub open spec fn shifted_count(s: Seq<char>, n: nat) -> nat
    decreases n,
{
    if n == 0 {
        0
    } else {
        shifted_count(s, (n - 1) as nat) + if shifted_us(s[n - 1]) {
            1nat
        } else {
            0nat
        }
    }
}

/// How many characters of `s` are typed with Shift on a US keyboard.
pub fn shift_count(s: &str) -> (r: usize)
    ensures
        r == shifted_count(s@, s@.len()),
{
    let cs = chars_of(s);
    let mut n: usize = 0;
    for i in 0..cs.len()
        invariant
            cs@ == s@,
            n == shifted_count(s@, i as nat),
            n <= i,
    {
        let c = cs[i];
        if ('A' <= c && c <= 'Z') || c == '!' || c == '@' || c == '#' || c == '$' || c == '%'
            || c == '^' || c == '&' || c == '*' || c == '(' || c == ')' || c == '_' || c == '+'
            || c == '{' || c == '}' || c == '|' || c == ':' || c == '"' || c == '<' || c == '>'
            || c == '?' {
            n = n + 1;
        }
    }
    n
}

/// What a personalized model knows of a digraph `(a, b)` beyond the base:
/// whether the tuned model has the digraph itself, the user's counts for
/// keys leaving `a` and entering `b` (and whether their means are known),
/// and the user's counts for the digraph's hand pair and class pair.
#[derive(Debug, Clone, Copy, PartialEq, Eq, Structural)]
pub struct BackoffEvidence {
    pub tuned_has: bool,
    pub out_count: Option<u32>,
    pub out_mean_known: bool,
    pub in_count: Option<u32>,
    pub in_mean_known: bool,
    pub hand_count: Option<u32>,
    pub class_count: Option<u32>,
}

/// Which estimates are combined for a digraph: the tuned mean alone, or the
/// base mean adjusted by each user effect that applies.
#[derive(Debug, Clone, Copy, PartialEq, Eq, Structural)]
pub struct BackoffPlan {
    pub use_tuned: bool,
    pub key_out: bool,
    pub key_in: bool,
    pub hand_group: bool,
    pub class_group: bool,
}

/// Whether a user count is enough evidence.
pub open spec fn trusted(count: Option<u32>, min_count: u32) -> bool {
    count matches Some(c) && c >= min_count
}

fn enough(count: Option<u32>, min_count: u32) -> (b: bool)
    ensures
        b == trusted(count, min_count),
{
    match count {
        Some(n) => n >= min_count,
        None => false,
    }
}

/// Choose the estimates for a digraph: the tuned mean when the tuned model
/// has the digraph; else the base mean adjusted by the outgoing-key effect,
/// the incoming-key effect, the hand-pair effect and the class-pair effect,
/// each when the user has at least `min_count` observations of it (and, for
/// the key effects, a known mean).
pub fn backoff_plan(e: BackoffEvidence, min_count: u32) -> (r: BackoffPlan)
    ensures
        r.use_tuned == e.tuned_has,
        r.key_out == (!e.tuned_has && trusted(e.out_count, min_count) && e.out_mean_known),
        r.key_in == (!e.tuned_has && trusted(e.in_count, min_count) && e.in_mean_known),
        r.hand_group == (!e.tuned_has && trusted(e.hand_count, min_count)),
        r.class_group == (!e.tuned_has && trusted(e.class_count, min_count)),
{
    if e.tuned_has {
        return BackoffPlan { use_tuned: true, key_out: false, key_in: false, hand_group: false, class_group: false };
    }
    BackoffPlan {
        use_tuned: false,
        key_out: enough(e.out_count, min_count) && e.out_mean_known,
        key_in: enough(e.in_count, min_count) && e.in_mean_known,
        hand_group: enough(e.hand_count, min_count),
        class_group: enough(e.class_count, min_count),
    }
}

/// Counts reported by building a personalized model.
#[derive(Debug, Clone)]
pub struct BuildPersonalizedStats {
    pub user_rows_used: usize,
    pub user_digraph_obs_used: usize,
    pub user_distinct_out: usize,
    pub user_distinct_in: usize,
    pub user_hand_groups: usize,
    pub user_class_groups: usize,
}

} // verus!
