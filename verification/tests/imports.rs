use phrasegen::import::bksd::{dd_columns_in_order, synthetic_phrase, SyntheticPhraseError};
use phrasegen::import::cmu_dsl::{dd_columns, PHRASE};
use phrasegen::import::cmu_laser2012::{
    self as laser, dd_labels, dd_line, parse_session_map, session_kind,
};
use phrasegen::import::column_index;
use phrasegen::import::greyc_web::{
    archive_entry, password_text, source_label, value_lines, ImportConfig, SessionFile,
};
use phrasegen::import::keyrecs::{self, free_text_entry, grapheme_of_key_name};

fn headers(line: &str) -> Vec<String> {
    line.split(',').map(|s| s.to_string()).collect()
}

#[test]
fn cmu_dsl_columns_are_found_in_order() {
    let h = headers(
        "subject,sessionIndex,rep,DD.period.t,DD.t.i,DD.i.e,DD.e.five,DD.five.Shift.r,DD.Shift.r.o,DD.o.a,DD.a.n,DD.n.l",
    );
    assert_eq!(dd_columns(&h), Ok(vec![3, 4, 5, 6, 7, 8, 9, 10, 11]));
    assert_eq!(PHRASE, ".tie5Roanl");
    assert_eq!(PHRASE.chars().count(), 10);
}

#[test]
fn cmu_dsl_missing_columns_are_named() {
    let h = headers("subject,DD.period.t,DD.t.i,DD.i.e,DD.e.five,DD.five.Shift.r,DD.o.a,DD.a.n");
    assert_eq!(
        dd_columns(&h),
        Err(vec!["DD.Shift.r.o".to_string(), "DD.n.l".to_string()])
    );
}

#[test]
fn column_index_takes_the_last_match() {
    let h = headers("a, b ,a,c");
    assert_eq!(column_index(&h, &['a'], false), Some(2));
    assert_eq!(column_index(&h, &['b'], false), None);
    assert_eq!(column_index(&h, &['b'], true), Some(1));
    assert_eq!(column_index(&h, &['z'], true), None);
}

#[test]
fn bksd_columns_and_synthetic_phrase() {
    let h = headers("H.1,DD.1_2,UD.1_2,H.2,DD.2_3,UD.2_3,total,user");
    let cols = dd_columns_in_order(&h);
    assert_eq!(cols, vec![1, 4]);
    let phrase = match synthetic_phrase(cols.len() + 1) {
        Ok(p) => p,
        Err(e) => panic!("unexpected {e:?}"),
    };
    assert_eq!(phrase.chars().count(), 3);
}

#[test]
fn bksd_columns_are_sorted_by_left_index() {
    let h = headers("DD.10_11,x,DD.2_3,DD.1_2,DD.bad,DD.2_9");
    assert_eq!(dd_columns_in_order(&h), vec![3, 2, 5, 0]);
}

#[test]
fn synthetic_phrase_bounds() {
    assert_eq!(synthetic_phrase(0), Ok(String::new()));
    assert_eq!(synthetic_phrase(2), Ok("\u{E000}\u{E001}".to_string()));
    let p = match synthetic_phrase(6400) {
        Ok(p) => p,
        Err(e) => panic!("unexpected {e:?}"),
    };
    assert_eq!(p.chars().last(), Some('\u{F8FF}'));
    assert_eq!(synthetic_phrase(6401), Err(SyntheticPhraseError::TooLong(6401)));
}

#[test]
fn laser_keys_map_to_graphemes() {
    assert_eq!(laser::map_key_to_grapheme("space"), Some(" ".to_string()));
    assert_eq!(laser::map_key_to_grapheme(" Shift.T "), Some("t".to_string()));
    assert_eq!(laser::map_key_to_grapheme("period"), Some(".".to_string()));
    assert_eq!(laser::map_key_to_grapheme("backslash"), Some("\\".to_string()));
    assert_eq!(laser::map_key_to_grapheme("shift"), None);
    assert_eq!(laser::map_key_to_grapheme("a.b.c"), Some("c".to_string()));
}

#[test]
fn keyrecs_keys_map_to_graphemes() {
    assert_eq!(keyrecs::map_key_to_grapheme("Space"), Some(" ".to_string()));
    assert_eq!(keyrecs::map_key_to_grapheme(" A "), Some("a".to_string()));
    assert_eq!(keyrecs::map_key_to_grapheme("Shift"), None);
    assert_eq!(keyrecs::map_key_to_grapheme(""), None);
    assert_eq!(keyrecs::map_key_to_grapheme("shift.t"), None);
    assert_eq!(grapheme_of_key_name(&['c', 'o', 'm', 'm', 'a']), Some(",".to_string()));
    assert_eq!(grapheme_of_key_name(&['\u{e9}']), None);
}

#[test]
fn keyrecs_free_text_entries() {
    match free_text_entry(Some("p7"), Some("3"), Some("H"), Some("Space")) {
        Some(e) => {
            assert_eq!(e.phrase, "h ");
            assert_eq!(e.note, "participant=p7 session=3");
        }
        None => panic!("a usable row"),
    }
    assert!(free_text_entry(Some(""), Some("3"), Some("a"), Some("b")).is_none());
    assert!(free_text_entry(Some("p"), Some("x"), Some("a"), Some("b")).is_none());
    assert!(free_text_entry(Some("p"), Some("1"), Some("Shift"), Some("b")).is_none());
    assert!(free_text_entry(None, Some("1"), Some("a"), Some("b")).is_none());
}

#[test]
fn keyrecs_urls() {
    assert!(keyrecs::free_text_url().starts_with("https://"));
    assert!(keyrecs::fixed_text_url().starts_with("https://"));
    assert!(laser::default_url().starts_with("https://"));
}

#[test]
fn laser_session_map_keeps_the_last_kind() {
    let text = "user session id label\n\
                s019  1 session.id \"Free vs Transcribed - Runaway - Trans\"\n\
                s019  2 session.id \"Free vs Transcribed - Free\"\n\
                s020 x session.id \"Free\"\n\
                s019  1 session.id \"Other\"\n";
    let m = parse_session_map(text);
    assert_eq!(
        m,
        vec![
            ("s019".to_string(), 1, "unknown".to_string()),
            ("s019".to_string(), 2, "free".to_string()),
        ]
    );
    assert_eq!(session_kind(&m, "s019", 2), "free");
    assert_eq!(session_kind(&m, "s099", 2), "unknown");
}

#[test]
fn laser_dd_lines() {
    assert!(dd_line(0, "subject session screen idx key1 key2 DD").is_none());
    assert!(dd_line(3, "   ").is_none());
    assert!(dd_line(3, "s019 1 2 0 a b").is_none());
    assert!(dd_line(3, "s019 1 2 0 shift b 0.1").is_none());
    let d = match dd_line(3, " s019 1 2 0 Shift.T space 0.125 ") {
        Some(d) => d,
        None => panic!("a usable line"),
    };
    assert_eq!(d.subject, "s019");
    assert_eq!(d.session, 1);
    assert_eq!(d.screen, 2);
    assert_eq!(d.phrase, "t ");
    assert_eq!(d.time_text, "0.125");
    let m = parse_session_map("s019 1 x \"Free vs Transcribed - Trans\"\n");
    let (source, note) = dd_labels(&d, &m);
    assert_eq!(source, "cmu_laser2012_trans");
    assert_eq!(note, "subject=s019 session=1 screen=2");
}

#[test]
fn greyc_archive_entries() {
    let all = ImportConfig::default();
    match archive_entry("output_numpy/passwords/u1/s2/password.txt", &all) {
        Some(e) => {
            assert_eq!(e.session_dir, "output_numpy/passwords/u1/s2");
            assert_eq!(e.file, SessionFile::Text);
            assert!(e.password_tree);
        }
        None => panic!("a password file"),
    }
    match archive_entry("output_numpy/passphrases/u1/impostor/s2/p_pp.txt", &all) {
        Some(e) => {
            assert_eq!(e.file, SessionFile::Timings);
            assert!(!e.password_tree);
        }
        None => panic!("a timings file"),
    }
    let no_impostor = ImportConfig { include_impostor: false, ..ImportConfig::default() };
    assert!(archive_entry("output_numpy/passphrases/u1/impostor/s2/p_pp.txt", &no_impostor).is_none());
    let no_pw = ImportConfig { include_passwords: false, ..ImportConfig::default() };
    assert!(archive_entry("output_numpy/passwords/u1/password.txt", &no_pw).is_none());
    assert!(archive_entry("output_numpy/other/u1/password.txt", &all).is_none());
    assert!(archive_entry("output_numpy/passwords/u1/notes.txt", &all).is_none());
    assert!(archive_entry("data/password.txt", &all).is_none());
    assert_eq!(source_label(true), "greyc_web_password");
    assert_eq!(source_label(false), "greyc_web_passphrase");
}

#[test]
fn greyc_file_contents() {
    assert_eq!(password_text("secret\r\n\n"), "secret");
    assert_eq!(password_text(" a b \n"), " a b ");
    assert_eq!(password_text(""), "");
    assert_eq!(
        value_lines(" 0.1 \n\n0.25\r\n  \n3"),
        vec!["0.1".to_string(), "0.25".to_string(), "3".to_string()]
    );
}
