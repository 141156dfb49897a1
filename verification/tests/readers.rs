use std::io::Write as _;

use phrasegen::import::bksd::{csv_files, dd_table, BksdError};
use phrasegen::import::cmu_dsl::{dd_cells, CmuDslError};
use phrasegen::import::cmu_laser2012::{archive_texts, laser_rows, LaserError};
use phrasegen::import::greyc_web::{
    archive_entry, greyc_sessions, read_greyc_archive, GreycError, ImportConfig, SessionBundles,
};
use phrasegen::import::keyrecs::free_text_rows;

fn zip_of(files: Vec<(&str, Vec<u8>)>) -> Vec<u8> {
    let mut w = zip::ZipWriter::new(std::io::Cursor::new(Vec::new()));
    let opts = zip::write::SimpleFileOptions::default().compression_method(zip::CompressionMethod::Stored);
    for (name, data) in files {
        w.start_file(name, opts).unwrap();
        w.write_all(&data).unwrap();
    }
    w.finish().unwrap().into_inner()
}

#[test]
fn cmu_cells_from_csv() {
    let csv = [
        "subject,sessionIndex,rep,DD.period.t,DD.t.i,DD.i.e,DD.e.five,DD.five.Shift.r,DD.Shift.r.o,DD.o.a,DD.a.n,DD.n.l",
        "s001,1,1,0.1,0.2,0.3,0.4,0.5,0.6,0.7,0.8,0.9",
    ]
    .join("\n");
    let cells = match dd_cells(csv.as_bytes()) {
        Ok(c) => c,
        Err(e) => panic!("unexpected {e:?}"),
    };
    assert_eq!(cells.len(), 1);
    assert_eq!(cells[0].len(), 9);
    assert_eq!(cells[0][0], "0.1");
    assert_eq!(cells[0][8], "0.9");
}

#[test]
fn cmu_cells_errors() {
    match dd_cells(b"subject,DD.t.i\ns1,0.1\n") {
        Err(CmuDslError::MissingColumns(m)) => assert_eq!(m.len(), 8),
        other => panic!("unexpected {other:?}"),
    }
    assert!(matches!(dd_cells(b"a,b\n1,2,3\n"), Err(CmuDslError::Csv(_))));
}

#[test]
fn bksd_table_from_csv() {
    let csv = ["H.1,DD.1_2,UD.1_2,H.2,DD.2_3,UD.2_3,total,user", "10,100,90,20,200,180,999,foo"].join("\n");
    match dd_table(csv.as_bytes()) {
        Ok((cols, cells)) => {
            assert_eq!(cols, vec![1, 4]);
            assert_eq!(cells, vec![vec!["100".to_string(), "200".to_string()]]);
        }
        Err(e) => panic!("unexpected {e:?}"),
    }
    assert!(matches!(dd_table(b"a,b\n1,2\n"), Err(BksdError::NoDdColumns)));
    assert!(matches!(dd_table(b"DD.1_2,b\n1,2,3\n"), Err(BksdError::Csv(_))));
}

#[test]
fn bksd_csv_files_of_an_archive() {
    let z = zip_of(vec![
        ("A.CSV", b"DD.1_2\n5\n".to_vec()),
        ("notes.txt", b"x".to_vec()),
        ("dir/b.csv", b"DD.1_2\n7\n".to_vec()),
    ]);
    let files = match csv_files(&z) {
        Ok(f) => f,
        Err(e) => panic!("unexpected {e:?}"),
    };
    assert_eq!(files.len(), 2);
    assert_eq!(files[0].0, "A.CSV");
    assert_eq!(files[0].1, b"DD.1_2\n5\n".to_vec());
    assert_eq!(files[1].0, "dir/b.csv");
    assert!(csv_files(b"not a zip").is_err());
}

#[test]
fn keyrecs_rows_from_csv() {
    let csv = "participant, session ,key1,key2,DD.key1.key2\n\
               p1,2,H,Space,0.1\n\
               ,2,a,b,0.2\n\
               p2,x,a,b,0.3\n\
               p3,1,Shift,a,0.1\n\
               p4,1,a,b, 0.5 \n";
    let rows = match free_text_rows(csv.as_bytes()) {
        Ok(r) => r,
        Err(e) => panic!("unexpected {e:?}"),
    };
    assert_eq!(rows.len(), 2);
    assert_eq!(rows[0].phrase, "h ");
    assert_eq!(rows[0].note, "participant=p1 session=2");
    assert_eq!(rows[0].dd_text, "0.1");
    assert_eq!(rows[1].phrase, "ab");
    assert_eq!(rows[1].dd_text, "0.5");
    assert!(free_text_rows(b"a,b\n1\n").is_err());
    // Without the DD column no row is usable.
    match free_text_rows(b"participant,session,key1,key2\np,1,a,b\n") {
        Ok(r) => assert!(r.is_empty()),
        Err(e) => panic!("unexpected {e:?}"),
    }
}

#[test]
fn laser_texts_of_an_archive() {
    let dd = b"subject session screen idx key1 key2 DD\ns019 1 2 0 h i 0.125\ns019 9 2 0 a shift 0.2\n";
    let sm = b"s019  1 session.id \"Free vs Transcribed - Free\"\n";
    let z = zip_of(vec![
        ("pkg/data/TimingFeatures-DD.txt", dd.to_vec()),
        ("pkg/data/SessionMap.txt", sm.to_vec()),
        ("pkg/README", b"r".to_vec()),
    ]);
    let (a, b) = match archive_texts(&z) {
        Ok(t) => t,
        Err(e) => panic!("unexpected {e:?}"),
    };
    assert_eq!(a.as_bytes(), dd);
    assert_eq!(b.as_bytes(), sm);
    let rows = laser_rows(&a, &b);
    assert_eq!(rows.len(), 1);
    assert_eq!(rows[0].phrase, "hi");
    assert_eq!(rows[0].time_text, "0.125");
    assert_eq!(rows[0].source, "cmu_laser2012_free");
    assert_eq!(rows[0].note, "subject=s019 session=1 screen=2");
}

#[test]
fn laser_archive_errors() {
    let z = zip_of(vec![("data/SessionMap.txt", Vec::new())]);
    assert!(matches!(archive_texts(&z), Err(LaserError::MissingTimings)));
    let z = zip_of(vec![("data/TimingFeatures-DD.txt", Vec::new())]);
    assert!(matches!(archive_texts(&z), Err(LaserError::MissingSessionMap)));
    let z = zip_of(vec![("data/TimingFeatures-DD.txt", vec![0xff, 0xfe]), ("data/SessionMap.txt", Vec::new())]);
    assert!(matches!(archive_texts(&z), Err(LaserError::Utf8(_))));
    assert!(matches!(archive_texts(b"junk"), Err(LaserError::Zip(_))));
}

#[test]
fn greyc_sessions_complete_with_both_files() {
    let cfg = ImportConfig::default();
    let mut b = SessionBundles::new();
    let p1 = "output_numpy/passwords/u1/s1/p_pp.txt";
    let e1 = archive_entry(p1, &cfg).unwrap();
    assert!(b.add(p1, &e1, "0.1\n\n 0.2 \n").is_none());
    let p2 = "output_numpy/passphrases/u2/s1/password.txt";
    let e2 = archive_entry(p2, &cfg).unwrap();
    assert!(b.add(p2, &e2, "zz\n").is_none());
    let p3 = "output_numpy/passwords/u1/s1/password.txt";
    let e3 = archive_entry(p3, &cfg).unwrap();
    let ready = b.add(p3, &e3, "abc\r\n").unwrap();
    assert_eq!(ready.text, "abc");
    assert_eq!(ready.values, vec!["0.1".to_string(), "0.2".to_string()]);
    assert_eq!(ready.source.as_deref(), Some("greyc_web_password"));
    assert_eq!(ready.note.as_deref(), Some(p3));
    // Taken out: the same session needs both files again.
    assert!(b.add(p3, &e3, "abc").is_none());
}

fn tar_gz_of(files: Vec<(&str, Vec<u8>)>) -> Vec<u8> {
    let enc = flate2::write::GzEncoder::new(Vec::new(), flate2::Compression::default());
    let mut b = tar::Builder::new(enc);
    for (name, data) in files {
        let mut h = tar::Header::new_gnu();
        h.set_size(data.len() as u64);
        h.set_mode(0o644);
        h.set_cksum();
        b.append_data(&mut h, name, data.as_slice()).unwrap();
    }
    b.into_inner().unwrap().finish().unwrap()
}

#[test]
fn greyc_archive_gives_passphrase_sessions() {
    let cfg = ImportConfig::default();
    let archive = tar_gz_of(vec![
        ("output_numpy/passphrases/u1/s1/passphrase.txt", b"hi you\n".to_vec()),
        ("output_numpy/passphrases/u1/s1/other.txt", b"ignored".to_vec()),
        ("output_numpy/passphrases/u1/s1/p_pp.txt", b"10\n20\n30\n40\n50\n".to_vec()),
        ("elsewhere/p_pp.txt", vec![0xff]),
    ]);
    let read = read_greyc_archive(&archive, &cfg);
    assert!(read.error.is_none());
    let steps = read.steps;
    assert_eq!(steps.len(), 2);
    assert!(steps[0].values.is_none() && steps[0].ready.is_none());
    assert_eq!(steps[1].values.as_deref().map(|v| v.len()), Some(5));
    let ready = steps[1].ready.as_ref().unwrap();
    assert_eq!(ready.text, "hi you");
    assert_eq!(ready.values, vec!["10", "20", "30", "40", "50"]);
    assert_eq!(ready.source.as_deref(), Some("greyc_web_passphrase"));
    assert_eq!(ready.note.as_deref(), Some("output_numpy/passphrases/u1/s1/p_pp.txt"));
}

#[test]
fn greyc_archive_errors() {
    let cfg = ImportConfig::default();
    let bad = read_greyc_archive(b"not a gzip archive", &cfg);
    assert!(bad.steps.is_empty() && matches!(bad.error, Some(GreycError::Archive(_))));
    let entries = vec![
        ("output_numpy/other/x.txt".to_string(), vec![0xff]),
        ("output_numpy/passwords/u/s/password.txt".to_string(), b"ab".to_vec()),
        ("output_numpy/passwords/u/s/p_pp.txt".to_string(), vec![0xff, 0xfe]),
    ];
    let r = greyc_sessions(&entries, &cfg);
    assert!(matches!(r.error, Some(GreycError::NotUtf8 { entry: 2 })));
    assert_eq!(r.steps.len(), 1);
    assert!(r.steps[0].ready.is_none());
}

#[test]
fn greyc_archive_keeps_the_steps_before_a_broken_tail() {
    let cfg = ImportConfig::default();
    let mut archive = tar_gz_of(vec![
        ("output_numpy/passwords/u1/s1/password.txt", b"ab".to_vec()),
        ("output_numpy/passwords/u1/s1/p_pp.txt", b"12\n".to_vec()),
        ("output_numpy/passwords/u1/s2/password.txt", b"cd".to_vec()),
    ]);
    // Cut the compressed stream short: the first entries are still read.
    let keep = archive.len() * 3 / 4;
    archive.truncate(keep);
    let read = read_greyc_archive(&archive, &cfg);
    assert!(matches!(read.error, Some(GreycError::Archive(_))));
    assert!(read.steps.len() <= 3);
}
