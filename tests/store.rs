use virus_scanner::store::{valid_hash, DBOps, StoreError, Table};

const H1: &str = "900150983cd24fb0d6963f7d28e17f72";
const H2: &str = "d41d8cd98f00b204e9800998ecf8427e";
const H3: &str = "0cc175b9c0f1b6a831c399e269772661";

fn open() -> DBOps {
    DBOps::new(":memory:").unwrap()
}

fn recs(v: &[&str]) -> Vec<String> {
    v.iter().map(|s| s.to_string()).collect()
}

#[test]
fn valid_hash_accepts_lowercase_hex_of_32() {
    assert!(valid_hash(H1));
    assert!(!valid_hash("900150983CD24FB0D6963F7D28E17F72"));
    assert!(!valid_hash("abc"));
    assert!(!valid_hash(""));
    assert!(!valid_hash("900150983cd24fb0d6963f7d28e17f7g"));
    assert!(!valid_hash("900150983cd24fb0d6963f7d28e17f722"));
}

#[test]
fn new_store_is_empty() {
    let db = open();
    assert_eq!(db.count_hashes().unwrap(), 0);
    assert_eq!(db.hash_exists("abcd1234").unwrap(), false);
}

#[test]
fn insert_skips_malformed_record_only() {
    let mut db = open();
    let r = db.insert_hashes(&recs(&[H1, "not-a-hash", H2, H3])).unwrap();
    assert_eq!(r, (3, 1));
    assert!(db.hash_exists(H1).unwrap());
    assert!(db.hash_exists(H2).unwrap());
    assert!(db.hash_exists(H3).unwrap());
    assert!(!db.hash_exists("not-a-hash").unwrap());
    assert_eq!(db.count_hashes().unwrap(), 3);
}

#[test]
fn lookup_finds_inserted_and_not_others() {
    let mut db = open();
    db.insert_hashes(&recs(&[H1])).unwrap();
    assert!(db.hash_exists(H1).unwrap());
    assert!(!db.hash_exists(H2).unwrap());
    assert!(!db.hash_exists(&H1.to_uppercase()).unwrap());
}

#[test]
fn duplicates_are_kept_and_removed_together() {
    let mut db = open();
    assert_eq!(db.insert_hashes(&recs(&[H1, H1, H2])).unwrap(), (3, 0));
    assert_eq!(db.count_hashes().unwrap(), 3);
    assert_eq!(db.remove_hashes(&recs(&[H1, "bad"])).unwrap(), (1, 1));
    assert!(!db.hash_exists(H1).unwrap());
    assert!(db.hash_exists(H2).unwrap());
    assert_eq!(db.count_hashes().unwrap(), 1);
}

#[test]
fn empty_batch_changes_nothing() {
    let mut db = open();
    db.insert_hashes(&recs(&[H2])).unwrap();
    assert_eq!(db.insert_hashes(&Vec::new()).unwrap(), (0, 0));
    assert_eq!(db.count_hashes().unwrap(), 1);
}

#[test]
fn index_does_not_change_lookups() {
    let mut db = open();
    db.insert_hashes(&recs(&[H1, H3])).unwrap();
    let before = (db.hash_exists(H1).unwrap(), db.hash_exists(H2).unwrap());
    db.create_index().unwrap();
    db.create_index().unwrap();
    let with_index = (db.hash_exists(H1).unwrap(), db.hash_exists(H2).unwrap());
    db.drop_index().unwrap();
    db.drop_index().unwrap();
    let without = (db.hash_exists(H1).unwrap(), db.hash_exists(H2).unwrap());
    assert_eq!(before, (true, false));
    assert_eq!(with_index, before);
    assert_eq!(without, before);
}

#[test]
fn update_replaces_all_signatures() {
    let mut db = open();
    db.insert_hashes(&recs(&[H1])).unwrap();
    let n = db.update_db(&recs(&[H2, H3, "zz"])).unwrap();
    assert_eq!(n, 2);
    assert!(!db.hash_exists(H1).unwrap());
    assert!(db.hash_exists(H2).unwrap());
    assert!(db.hash_exists(H3).unwrap());
    assert_eq!(db.count_hashes().unwrap(), 2);
    assert!(db.drop(Table::Backup).is_err());
}

#[test]
fn update_twice_keeps_only_latest() {
    let mut db = open();
    assert_eq!(db.update_db(&recs(&[H1, H2])).unwrap(), 2);
    assert_eq!(db.update_db(&recs(&[H3])).unwrap(), 1);
    assert!(!db.hash_exists(H1).unwrap());
    assert!(db.hash_exists(H3).unwrap());
}

#[test]
fn rename_and_drop_tables() {
    let mut db = open();
    db.insert_hashes(&recs(&[H1])).unwrap();
    db.rename(Table::Active, Table::Backup).unwrap();
    assert!(matches!(db.hash_exists(H1), Err(StoreError::Sqlite(_))));
    db.rename(Table::Backup, Table::Active).unwrap();
    assert!(db.hash_exists(H1).unwrap());
    db.drop(Table::Active).unwrap();
    assert!(db.count_hashes().is_err());
    assert!(db.drop(Table::Active).is_err());
    db.init_table().unwrap();
    assert_eq!(db.count_hashes().unwrap(), 0);
    db.vacuum().unwrap();
}

#[test]
fn bad_database_path_is_an_error() {
    assert!(matches!(
        DBOps::new("/no/such/dir/for/sure/signatures.db"),
        Err(StoreError::Sqlite(_))
    ));
}

#[test]
fn restore_backup_puts_backup_back() {
    let mut db = open();
    db.insert_hashes(&recs(&[H1, H2])).unwrap();
    assert_eq!(db.restore_backup().unwrap(), false);
    assert_eq!(db.count_hashes().unwrap(), 2);
    db.rename(Table::Active, Table::Backup).unwrap();
    db.init_table().unwrap();
    db.insert_hashes(&recs(&[H3])).unwrap();
    assert_eq!(db.restore_backup().unwrap(), true);
    assert_eq!(db.count_hashes().unwrap(), 2);
    assert!(db.hash_exists(H1).unwrap());
    assert!(!db.hash_exists(H3).unwrap());
    assert_eq!(db.restore_backup().unwrap(), false);
}

#[test]
fn count_matches_inserted_number() {
    let mut db = open();
    let batch = recs(&[H1, H2, H3, H1]);
    let (n, k) = db.insert_hashes(&batch).unwrap();
    assert_eq!((n, k), (4, 0));
    assert_eq!(db.count_hashes().unwrap(), 4);
}

#[test]
fn index_survives_vacuum_and_update_rebuilds_it() {
    let mut db = open();
    db.create_index().unwrap();
    db.vacuum().unwrap();
    db.drop_index().unwrap();
    db.drop_index().unwrap();
    assert_eq!(db.update_db(&recs(&[H1, "XYZ"])).unwrap(), 1);
    assert!(db.hash_exists(H1).unwrap());
    assert!(db.create_index().is_ok());
}

#[test]
fn uppercase_signature_is_skipped() {
    let mut db = open();
    assert_eq!(db.insert_hashes(&recs(&[&H1.to_uppercase()])).unwrap(), (0, 1));
    assert_eq!(db.count_hashes().unwrap(), 0);
}
