//! The decisions of recording one typing sample from key presses.
//!
//! A `Recorder` is fed key presses with their times (a monotonic clock in
//! any unit, e.g. microseconds) and answers what to do next; the terminal,
//! the clock and the printing stay with the caller.
use vstd::prelude::*;
use crate::text::{chars_of, chars_eq, string_from};

verus! {

/// How a recording session behaves.
#[derive(Debug, Clone)]
pub struct RecordConfig {
    /// Optional target string the user must type exactly (no backspaces:
    /// with a target, a backspace aborts the sample).
    pub target: Option<String>,
    /// Abort the current sample if backspace is pressed.
    pub abort_on_backspace: bool,
    /// Maximum characters allowed in a sample (safety).
    pub max_len: usize,
}

/// Whether a backspace aborts the sample: when aborting on backspace is on,
/// or when a target must be typed exactly.
pub open spec fn backspace_aborts_spec(cfg: RecordConfig) -> bool {
    cfg.abort_on_backspace || cfg.target is Some
}

/// Whether a backspace aborts the sample under `cfg`.
pub fn backspace_aborts(cfg: &RecordConfig) -> (r: bool)
    ensures
        r == backspace_aborts_spec(*cfg),
{
    cfg.abort_on_backspace || cfg.target.is_some()
}

impl Default for RecordConfig {
    fn default() -> (r: Self)
        ensures
            r.target is None,
            r.abort_on_backspace,
            r.max_len == 200,
    {
        RecordConfig { target: None, abort_on_backspace: true, max_len: 200 }
    }
}

/// A key press (or key repeat) as the recorder sees it.
#[derive(Debug, Clone, Copy, PartialEq, Eq, Structural)]
pub enum KeyEvent {
    Esc,
    Enter,
    Backspace,
    Char(char),
    /// Any other key.
    Other,
}

/// Why a sample was abandoned.
#[derive(Debug, Clone, Copy, PartialEq, Eq, Structural)]
pub enum AbortReason {
    /// Escape was pressed.
    Escape,
    /// Backspace was pressed while backspace aborts.
    Backspace,
    /// The sample reached the maximum length.
    MaxLen,
    /// Enter was pressed before any character.
    Empty,
    /// The typed text differs from the target.
    Mismatch,
}

/// What the caller does after a key press.
#[derive(Debug, Clone, Copy, PartialEq, Eq, Structural)]
pub enum KeyAction {
    /// Wait for the next key.
    Continue,
    /// Echo the character typed, then wait.
    Echo(char),
    /// Erase the last echoed character, then wait.
    Erase,
    /// Stop: the sample is abandoned.
    Abort(AbortReason),
    /// Stop: the sample is complete; call `finish`.
    Submit,
}

/// A finished sample: the typed phrase, the delay between each pair of
/// adjacent characters, the time from the first key press to the end, and
/// the number of backspaces (none when zero).
pub struct Recording {
    pub phrase: String,
    pub digraph_dt: Vec<u64>,
    pub total: Option<u64>,
    pub backspaces: Option<u32>,
}

/// The result of finishing a sample.
pub enum RecordOutcome {
    Recorded(Recording),
    Aborted(AbortReason),
}

/// The state of one sample being typed: the retained characters with the
/// time each was typed, the backspaces pressed, and the time of the first
/// character typed (kept even if that character is erased later).
pub struct Recorder {
    pub buf: Vec<(char, u64)>,
    pub backspaces: u32,
    pub first: Option<u64>,
}

/// The characters of a buffer.
pub open spec fn buf_chars(buf: Seq<(char, u64)>) -> Seq<char> {
    buf.map_values(|e: (char, u64)| e.0)
}

/// `b - a`, or 0 when `b` is earlier.
pub open spec fn elapsed(a: u64, b: u64) -> u64 {
    if b >= a {
        (b - a) as u64
    } else {
        0
    }
}

/// The delays between adjacent characters of a buffer.
pub open spec fn buf_dts(buf: Seq<(char, u64)>) -> Seq<u64> {
    Seq::new(
        (if buf.len() == 0 {
            0
        } else {
            buf.len() - 1
        }) as nat,
        |i: int| elapsed(buf[i].1, buf[i + 1].1),
    )
}

impl Recorder {
    /// A sample with nothing typed yet.
    pub fn new() -> (r: Recorder)
        ensures
            r.buf@.len() == 0,
            r.backspaces == 0,
            r.first is None,
    {
        Recorder { buf: Vec::new(), backspaces: 0, first: None }
    }

    /// React to one key press at time `now`.
    pub fn on_key(&mut self, cfg: &RecordConfig, key: KeyEvent, now: u64) -> (a: KeyAction)
        ensures
            match key {
                KeyEvent::Esc => a == KeyAction::Abort(AbortReason::Escape) && final(self).buf@
                    == old(self).buf@ && final(self).backspaces == old(self).backspaces
                    && final(self).first == old(self).first,
                KeyEvent::Enter => a == KeyAction::Submit && final(self).buf@ == old(self).buf@
                    && final(self).backspaces == old(self).backspaces && final(self).first == old(
                    self,
                ).first,
                KeyEvent::Backspace => if backspace_aborts_spec(*cfg) {
                    a == KeyAction::Abort(AbortReason::Backspace) && final(self).buf@ == old(
                        self,
                    ).buf@ && final(self).backspaces == old(self).backspaces && final(self).first
                        == old(self).first
                } else {
                    &&& final(self).backspaces == (if old(self).backspaces == u32::MAX {
                        u32::MAX
                    } else {
                        (old(self).backspaces + 1) as u32
                    })
                    &&& final(self).first == old(self).first
                    &&& if old(self).buf@.len() > 0 {
                        a == KeyAction::Erase && final(self).buf@ == old(self).buf@.drop_last()
                    } else {
                        a == KeyAction::Continue && final(self).buf@ == old(self).buf@
                    }
                },
                KeyEvent::Char(c) => if old(self).buf@.len() >= cfg.max_len {
                    a == KeyAction::Abort(AbortReason::MaxLen) && final(self).buf@ == old(
                        self,
                    ).buf@ && final(self).backspaces == old(self).backspaces && final(self).first
                        == old(self).first
                } else {
                    &&& a == KeyAction::Echo(c)
                    &&& final(self).buf@ == old(self).buf@.push((c, now))
                    &&& final(self).backspaces == old(self).backspaces
                    &&& final(self).first == (if old(self).first is None {
                        Some(now)
                    } else {
                        old(self).first
                    })
                },
                KeyEvent::Other => a == KeyAction::Continue && final(self).buf@ == old(self).buf@
                    && final(self).backspaces == old(self).backspaces && final(self).first == old(
                    self,
                ).first,
            },
    {
        match key {
            KeyEvent::Esc => KeyAction::Abort(AbortReason::Escape),
            KeyEvent::Enter => KeyAction::Submit,
            KeyEvent::Backspace => {
                if backspace_aborts(cfg) {
                    return KeyAction::Abort(AbortReason::Backspace);
                }
                self.backspaces = self.backspaces.saturating_add(1);
                if self.buf.len() > 0 {
                    self.buf.pop();
                    KeyAction::Erase
                } else {
                    KeyAction::Continue
                }
            },
            KeyEvent::Char(c) => {
                if self.buf.len() >= cfg.max_len {
                    return KeyAction::Abort(AbortReason::MaxLen);
                }
                if self.first.is_none() {
                    self.first = Some(now);
                }
                self.buf.push((c, now));
                KeyAction::Echo(c)
            },
            KeyEvent::Other => KeyAction::Continue,
        }
    }

    /// Complete the sample when Enter was pressed at time `end`. An empty
    /// sample is abandoned, as is one that differs from the target; otherwise
    /// the recording holds the typed phrase with one delay per pair of
    /// adjacent characters.
    pub fn finish(&self, cfg: &RecordConfig, end: u64) -> (o: RecordOutcome)
        ensures
            self.buf@.len() == 0 ==> o == RecordOutcome::Aborted(AbortReason::Empty),
            self.buf@.len() > 0 && (cfg.target matches Some(t) && t@ != buf_chars(self.buf@))
                ==> o == RecordOutcome::Aborted(AbortReason::Mismatch),
            self.buf@.len() > 0 && !(cfg.target matches Some(t) && t@ != buf_chars(self.buf@))
                ==> (o matches RecordOutcome::Recorded(rec) && {
                &&& rec.phrase@ == buf_chars(self.buf@)
                &&& rec.digraph_dt@ == buf_dts(self.buf@)
                &&& rec.digraph_dt@.len() == rec.phrase@.len() - 1
                &&& rec.total == (match self.first {
                    Some(t0) => Some(elapsed(t0, end)),
                    None => None,
                })
                &&& rec.backspaces == (if self.backspaces == 0 {
                    None
                } else {
                    Some(self.backspaces)
                })
            }),
    {
        let n = self.buf.len();
        if n == 0 {
            return RecordOutcome::Aborted(AbortReason::Empty);
        }
        let mut cs: Vec<char> = Vec::new();
        for i in 0..n
            invariant
                n == self.buf@.len(),
                cs@ == buf_chars(self.buf@.take(i as int)),
        {
            cs.push(self.buf[i].0);
            assert(buf_chars(self.buf@.take(i + 1)) =~= buf_chars(self.buf@.take(i as int)).push(
                self.buf@[i as int].0,
            ));
        }
        assert(self.buf@.take(n as int) =~= self.buf@);
        let total = match self.first {
            Some(t0) => Some(end.saturating_sub(t0)),
            None => None,
        };
        let mut dts: Vec<u64> = Vec::new();
        for i in 0..n - 1
            invariant
                n == self.buf@.len(),
                n >= 1,
                dts@.len() == i,
                forall|j: int|
                    0 <= j < i ==> #[trigger] dts@[j] == elapsed(
                        self.buf@[j].1,
                        self.buf@[j + 1].1,
                    ),
        {
            dts.push(self.buf[i + 1].1.saturating_sub(self.buf[i].1));
        }
        assert(dts@ =~= buf_dts(self.buf@));
        if let Some(t) = &cfg.target {
            let tc = chars_of(t.as_str());
            if !chars_eq(cs.as_slice(), tc.as_slice()) {
                return RecordOutcome::Aborted(AbortReason::Mismatch);
            }
        }
        let backspaces = if self.backspaces == 0 {
            None
        } else {
            Some(self.backspaces)
        };
        RecordOutcome::Recorded(
            Recording { phrase: string_from(cs.as_slice()), digraph_dt: dts, total, backspaces },
        )
    }
}

} // verus!
