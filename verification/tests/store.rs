use kvstore::{Database, LoadError};

fn fresh(path: &str) -> Database {
    Database::load(path.to_string(), "").expect("empty contents must load")
}

fn reopen(db: &Database) -> Database {
    let contents = db.snapshot();
    Database::load(db.path().to_string(), &contents).expect("a flushed snapshot must load")
}

#[test]
fn empty_contents_load_to_empty_store() {
    let db = fresh("kv.db");
    assert_eq!(db.len(), 0);
    assert_eq!(db.snapshot(), "");
}

#[test]
fn query_after_load() {
    let db = Database::load("kv.db".to_string(), "alice\t30\nbob\t25").unwrap();
    assert_eq!(db.len(), 2);
    assert_eq!(db.query("alice"), Some("30".to_string()));
    assert_eq!(db.query("bob"), Some("25".to_string()));
}

#[test]
fn query_missing_key_is_not_found_not_error() {
    let db = Database::load("kv.db".to_string(), "alice\t30").unwrap();
    assert_eq!(db.query("bob"), None);
    assert_eq!(db.query(""), None);
}

#[test]
fn insert_then_query() {
    let mut db = fresh("kv.db");
    db.insert("alice", "30");
    assert_eq!(db.query("alice"), Some("30".to_string()));
    assert_eq!(db.len(), 1);
}

#[test]
fn overwrite_keeps_one_entry_with_latest_value() {
    let mut db = fresh("kv.db");
    db.insert("k", "A");
    db.insert("k", "B");
    assert_eq!(db.len(), 1);
    assert_eq!(db.query("k"), Some("B".to_string()));
    let db2 = reopen(&db);
    assert_eq!(db2.len(), 1);
    assert_eq!(db2.query("k"), Some("B".to_string()));
}

#[test]
fn round_trip_preserves_all_pairs() {
    let pairs = [
        ("alice", "30"),
        ("bob", "25"),
        ("", "empty key"),
        ("empty value", ""),
        ("spaces are fine", "so are : , ; \""),
    ];
    let mut db = fresh("kv.db");
    for (k, v) in pairs {
        db.insert(k, v);
    }
    let db2 = reopen(&db);
    assert_eq!(db2.len(), pairs.len());
    for (k, v) in pairs {
        assert_eq!(db2.query(k), Some(v.to_string()));
    }
}

#[test]
fn snapshot_exact_contents() {
    let mut db = fresh("kv.db");
    db.insert("alice", "30");
    assert_eq!(db.snapshot(), "alice\t30");
    db.insert("bob", "25");
    assert_eq!(db.snapshot(), "alice\t30\nbob\t25");
}

#[test]
fn malformed_line_without_delimiter_fails_whole_load() {
    let r = Database::load("kv.db".to_string(), "alice\t30\nmalformed");
    assert!(matches!(r, Err(LoadError::MalformedRecord)));
}

#[test]
fn malformed_line_with_two_delimiters_fails_whole_load() {
    let r = Database::load("kv.db".to_string(), "a\tb\tc\nalice\t30");
    assert!(matches!(r, Err(LoadError::MalformedRecord)));
}

#[test]
fn empty_line_is_malformed() {
    let r = Database::load("kv.db".to_string(), "alice\t30\n\nbob\t25");
    assert!(matches!(r, Err(LoadError::MalformedRecord)));
}

#[test]
fn trailing_newline_is_accepted() {
    let db = Database::load("kv.db".to_string(), "alice\t30\nbob\t25\n").unwrap();
    assert_eq!(db.len(), 2);
    assert_eq!(db.query("bob"), Some("25".to_string()));
}

#[test]
fn lone_newline_is_an_empty_malformed_line() {
    let r = Database::load("kv.db".to_string(), "\n");
    assert!(matches!(r, Err(LoadError::MalformedRecord)));
}

#[test]
fn duplicate_key_in_file_later_line_wins() {
    let db = Database::load("kv.db".to_string(), "k\tfirst\nk\tsecond").unwrap();
    assert_eq!(db.len(), 1);
    assert_eq!(db.query("k"), Some("second".to_string()));
}

#[test]
fn empty_fields_round_trip() {
    let db = Database::load("kv.db".to_string(), "\t").unwrap();
    assert_eq!(db.len(), 1);
    assert_eq!(db.query(""), Some("".to_string()));
    let db2 = reopen(&db);
    assert_eq!(db2.query(""), Some("".to_string()));
}

#[test]
fn path_is_kept() {
    let db = fresh("some/dir/data.db");
    assert_eq!(db.path(), "some/dir/data.db");
}

#[test]
fn scenario_open_query_insert_flush_reopen() {
    let db0 = Database::load("kv.db".to_string(), "alice\t30\nbob\t25").unwrap();
    assert_eq!(db0.query("alice"), Some("30".to_string()));
    let mut db = db0;
    db.insert("alice", "31");
    let db2 = reopen(&db);
    assert_eq!(db2.query("alice"), Some("31".to_string()));
    assert_eq!(db2.query("bob"), Some("25".to_string()));
    assert_eq!(db2.query("carol"), None);
}

#[test]
fn unicode_text_round_trips() {
    let mut db = fresh("kv.db");
    db.insert("clé", "välue ✓");
    db.insert("ключ", "значение");
    let db2 = reopen(&db);
    assert_eq!(db2.query("clé"), Some("välue ✓".to_string()));
    assert_eq!(db2.query("ключ"), Some("значение".to_string()));
}
