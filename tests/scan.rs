use virus_scanner::digest::Digester;
use virus_scanner::scanner::{buffer_budget, FileScanner, ScanError, ScannedFile, Visit, MAX_BUFFER, MIN_BUFFER};

fn digest(chunks: &[&[u8]]) -> Option<String> {
    let mut d = Digester::new();
    for c in chunks {
        d.consume(c);
    }
    d.finish()
}

#[test]
fn digest_of_empty_content_is_none() {
    assert_eq!(digest(&[]), None);
    assert_eq!(digest(&[b"", b""]), None);
}

#[test]
fn digest_is_md5_hex() {
    assert_eq!(digest(&[b"abc"]).unwrap(), "900150983cd24fb0d6963f7d28e17f72");
    assert_eq!(digest(&[b"a"]).unwrap(), "0cc175b9c0f1b6a831c399e269772661");
}

#[test]
fn digest_is_stable_and_independent_of_chunking() {
    let a = digest(&[b"hello world"]);
    let b = digest(&[b"hello world"]);
    let c = digest(&[b"hel", b"", b"lo wor", b"ld"]);
    assert!(a.is_some());
    assert_eq!(a, b);
    assert_eq!(a, c);
}

#[test]
fn budget_is_half_of_free_memory_clamped() {
    assert_eq!(buffer_budget(0), MIN_BUFFER as usize);
    assert_eq!(buffer_budget(1000), MIN_BUFFER as usize);
    assert_eq!(buffer_budget(8_000_000), 4_000_000);
    assert_eq!(buffer_budget(u64::MAX), MAX_BUFFER as usize);
}

#[test]
fn scanner_rejects_missing_root() {
    assert!(matches!(
        FileScanner::new("/no/such/dir/for/sure", ":memory:"),
        Err(ScanError::InvalidPath)
    ));
}

#[test]
fn scan_flags_only_known_digests() {
    let mut s = FileScanner::new(".", ":memory:").unwrap();
    let d1 = digest(&[b"evil content"]).unwrap();
    let d2 = digest(&[b"harmless content"]).unwrap();
    let (ins, skip) = s.db_conn.insert_hashes(&vec![d1.clone()]).unwrap();
    assert_eq!((ins, skip), (1, 0));
    let files = vec![
        ScannedFile { path: "dir/a.txt".to_string(), digest: Some(d1.clone()) },
        ScannedFile { path: "dir/b.txt".to_string(), digest: Some(d2) },
        ScannedFile { path: "dir/empty.txt".to_string(), digest: digest(&[]) },
    ];
    let visits = s.search_files(&files);
    assert_eq!(visits, vec![Visit::Matched, Visit::Clean, Visit::Skipped]);
    assert_eq!(s.dirty_files, vec!["dir/a.txt".to_string()]);
    assert_eq!(s.analysed, 2);
    assert_eq!(s.skipped, 1);
    assert_eq!(s.log.len(), 1);
    assert_eq!(s.log[0].hash, d1);
    assert_eq!(s.log[0].path, "dir/a.txt");
    assert!(!s.log[0].timestamp.is_empty());
}

#[test]
fn visit_reports_each_outcome() {
    let mut s = FileScanner::new(".", ":memory:").unwrap();
    let d1 = digest(&[b"x"]).unwrap();
    s.db_conn.insert_hashes(&vec![d1.clone()]).unwrap();
    assert_eq!(s.visit_file("p0".to_string(), None), Visit::Skipped);
    assert_eq!(s.visit_file("p1".to_string(), Some(d1)), Visit::Matched);
    assert_eq!(s.visit_file("p2".to_string(), digest(&[b"y"])), Visit::Clean);
    s.db_conn.drop(virus_scanner::store::Table::Active).unwrap();
    assert_eq!(s.visit_file("p3".to_string(), digest(&[b"x"])), Visit::LookupFailed);
    assert_eq!(s.dirty_files, vec!["p1".to_string()]);
    assert_eq!((s.analysed, s.skipped), (3, 1));
}
