use phrasegen::kgram::{observations, KGramCounts, KGramError, END, START};
use phrasegen::record::{
    backspace_aborts, AbortReason, KeyAction, KeyEvent, RecordConfig, RecordOutcome, Recorder,
};

fn corpus(v: &[(&str, u64)]) -> Vec<(String, u64)> {
    v.iter().map(|(s, w)| (s.to_string(), *w)).collect()
}

#[test]
fn kgram_order_zero_is_refused() {
    assert!(matches!(KGramCounts::new(0), Err(KGramError::ZeroK)));
}

#[test]
fn kgram_bigram_counts() {
    let mut m = match KGramCounts::new(2) {
        Ok(m) => m,
        Err(_) => panic!("k = 2 is valid"),
    };
    assert_eq!(m.k(), 2);
    assert_eq!(m.vocab_size(), 0);
    m.train(&corpus(&[("ab", 2), ("ac", 1), ("zz", 0)]));
    assert_eq!(m.count(&[START], 'a'), 3);
    assert_eq!(m.count(&['a'], 'b'), 2);
    assert_eq!(m.count(&['a'], 'c'), 1);
    assert_eq!(m.count(&['b'], END), 2);
    assert_eq!(m.count(&['c'], END), 1);
    assert_eq!(m.count(&['z'], 'z'), 0);
    assert_eq!(m.context_total(&['a']), 3);
    assert_eq!(m.context_total(&['q']), 0);
    let contexts = [vec![START], vec!['a'], vec!['b'], vec!['c']];
    assert_eq!(contexts.iter().map(|c| m.context_total(c)).sum::<u64>(), 9);
    // a, b, c and the end marker; the zero-weight token adds nothing.
    assert_eq!(m.vocab_size(), 4);
}

#[test]
fn kgram_training_accumulates() {
    let mut m = match KGramCounts::new(2) {
        Ok(m) => m,
        Err(_) => panic!("k = 2 is valid"),
    };
    m.train(&corpus(&[("ab", 1)]));
    m.train(&corpus(&[("ab", 1), ("b", 4)]));
    assert_eq!(m.count(&['a'], 'b'), 2);
    assert_eq!(m.count(&[START], 'b'), 4);
    assert_eq!(m.count(&['b'], END), 6);
    assert_eq!(m.context_total(&[START]), 6);
    assert_eq!(m.context_total(&['b']), 6);
}

#[test]
fn kgram_unigram_has_one_context() {
    let mut m = match KGramCounts::new(1) {
        Ok(m) => m,
        Err(_) => panic!("k = 1 is valid"),
    };
    m.train(&corpus(&[("aa", 1)]));
    assert_eq!(m.count(&[], 'a'), 2);
    assert_eq!(m.count(&[], END), 1);
    assert_eq!(m.context_total(&[]), 3);
}

#[test]
fn kgram_observations_of_a_token() {
    let obs = observations(3, &['x']);
    assert_eq!(obs, vec![(vec![START, START], 'x'), (vec![START, 'x'], END)]);
    let obs = observations(1, &['a', 'b']);
    assert_eq!(obs, vec![(vec![], 'a'), (vec![], 'b'), (vec![], END)]);
    let obs = observations(2, &[]);
    assert_eq!(obs, vec![(vec![START], END)]);
}

fn press(r: &mut Recorder, cfg: &RecordConfig, keys: &[(KeyEvent, u64)]) -> Vec<KeyAction> {
    keys.iter().map(|(k, t)| r.on_key(cfg, *k, *t)).collect()
}

#[test]
fn recorder_records_a_phrase() {
    let cfg = RecordConfig::default();
    let mut r = Recorder::new();
    let acts = press(
        &mut r,
        &cfg,
        &[(KeyEvent::Char('h'), 100), (KeyEvent::Other, 120), (KeyEvent::Char('i'), 250), (KeyEvent::Enter, 400)],
    );
    assert_eq!(acts, vec![KeyAction::Echo('h'), KeyAction::Continue, KeyAction::Echo('i'), KeyAction::Submit]);
    match r.finish(&cfg, 400) {
        RecordOutcome::Recorded(rec) => {
            assert_eq!(rec.phrase, "hi");
            assert_eq!(rec.digraph_dt, vec![150]);
            assert_eq!(rec.total, Some(300));
            assert_eq!(rec.backspaces, None);
        }
        RecordOutcome::Aborted(a) => panic!("unexpected abort {a:?}"),
    }
}

#[test]
fn recorder_counts_backspaces_when_allowed() {
    let cfg = RecordConfig { target: None, abort_on_backspace: false, max_len: 200 };
    let mut r = Recorder::new();
    let acts = press(
        &mut r,
        &cfg,
        &[
            (KeyEvent::Backspace, 0),
            (KeyEvent::Char('a'), 10),
            (KeyEvent::Char('x'), 20),
            (KeyEvent::Backspace, 30),
            (KeyEvent::Char('b'), 70),
        ],
    );
    assert_eq!(
        acts,
        vec![KeyAction::Continue, KeyAction::Echo('a'), KeyAction::Echo('x'), KeyAction::Erase, KeyAction::Echo('b')]
    );
    match r.finish(&cfg, 100) {
        RecordOutcome::Recorded(rec) => {
            assert_eq!(rec.phrase, "ab");
            assert_eq!(rec.digraph_dt, vec![60]);
            assert_eq!(rec.total, Some(90));
            assert_eq!(rec.backspaces, Some(2));
        }
        RecordOutcome::Aborted(a) => panic!("unexpected abort {a:?}"),
    }
}

#[test]
fn recorder_aborts() {
    let cfg = RecordConfig::default();
    let mut r = Recorder::new();
    assert_eq!(r.on_key(&cfg, KeyEvent::Esc, 0), KeyAction::Abort(AbortReason::Escape));
    assert!(matches!(r.finish(&cfg, 0), RecordOutcome::Aborted(AbortReason::Empty)));

    let mut r = Recorder::new();
    assert_eq!(r.on_key(&cfg, KeyEvent::Char('a'), 0), KeyAction::Echo('a'));
    assert_eq!(r.on_key(&cfg, KeyEvent::Backspace, 5), KeyAction::Abort(AbortReason::Backspace));

    let mut r = Recorder::new();
    assert_eq!(r.on_key(&cfg, KeyEvent::Backspace, 0), KeyAction::Abort(AbortReason::Backspace));
    assert_eq!(r.backspaces, 0);

    let small = RecordConfig { target: None, abort_on_backspace: true, max_len: 1 };
    let mut r = Recorder::new();
    assert_eq!(r.on_key(&small, KeyEvent::Char('a'), 0), KeyAction::Echo('a'));
    assert_eq!(r.on_key(&small, KeyEvent::Char('b'), 1), KeyAction::Abort(AbortReason::MaxLen));
}

#[test]
fn recorder_checks_the_target() {
    let cfg = RecordConfig { target: Some("ab".to_string()), abort_on_backspace: true, max_len: 200 };
    let mut r = Recorder::new();
    press(&mut r, &cfg, &[(KeyEvent::Char('a'), 0), (KeyEvent::Char('c'), 10)]);
    assert!(matches!(r.finish(&cfg, 20), RecordOutcome::Aborted(AbortReason::Mismatch)));

    let mut r = Recorder::new();
    press(&mut r, &cfg, &[(KeyEvent::Char('a'), 0), (KeyEvent::Char('b'), 10)]);
    assert!(matches!(r.finish(&cfg, 20), RecordOutcome::Recorded(_)));
}

#[test]
fn recorder_delays_never_go_negative() {
    let cfg = RecordConfig::default();
    let mut r = Recorder::new();
    press(&mut r, &cfg, &[(KeyEvent::Char('a'), 50), (KeyEvent::Char('b'), 40)]);
    match r.finish(&cfg, 10) {
        RecordOutcome::Recorded(rec) => {
            assert_eq!(rec.digraph_dt, vec![0]);
            assert_eq!(rec.total, Some(0));
        }
        RecordOutcome::Aborted(a) => panic!("unexpected abort {a:?}"),
    }
}

#[test]
fn record_config_default() {
    let cfg = RecordConfig::default();
    assert_eq!(cfg.target, None);
    assert!(cfg.abort_on_backspace);
    assert_eq!(cfg.max_len, 200);
}

#[test]
fn backspace_aborts_with_a_target() {
    let cfg = RecordConfig { target: Some("ab".to_string()), abort_on_backspace: false, max_len: 200 };
    assert!(backspace_aborts(&cfg));
    let mut r = Recorder::new();
    assert_eq!(r.on_key(&cfg, KeyEvent::Char('a'), 0), KeyAction::Echo('a'));
    assert_eq!(r.on_key(&cfg, KeyEvent::Backspace, 5), KeyAction::Abort(AbortReason::Backspace));
    let free = RecordConfig { target: None, abort_on_backspace: false, max_len: 200 };
    assert!(!backspace_aborts(&free));
    assert!(backspace_aborts(&RecordConfig::default()));
}
