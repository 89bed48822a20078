use chrono::Utc;

use http_fm::db::{pending_migrations, DB, DB_VERSION};
use http_fm::errors::HFMError;

#[test]
fn test_insert_code_path() {
    let mut db = DB::open_in_memory();

    let result = db.insert_code_path("fart", "/path", None);
    println!("{:?}", result);
    assert!(result.is_ok());
}

#[test]
fn test_insert_duplicate_code_path() {
    let mut db = DB::open_in_memory();

    let result = db.insert_code_path("fart", "/path", None);
    println!("{:?}", result);
    let result = db.insert_code_path("fart", "/path2", None);
    println!("{:?}", result);
    assert!(result.is_err());
}

#[test]
fn test_get_path() {
    let mut db = DB::open_in_memory();

    let code = "foobar";
    let path = "/path";

    let result = db.insert_code_path(code, path, None);
    assert!(result.is_ok());

    let result = db.get_code_path(code);
    assert!(result.is_some());
    assert_eq!(result.unwrap().path, path);
}

#[test]
fn test_get_path_expired() {
    let mut db = DB::open_in_memory();

    let code = "foobar";
    let path = "/path";
    let expiration = Some(Utc::now().timestamp());

    let result = db.insert_code_path(code, path, expiration);
    assert!(result.is_ok());

    let result = db.get_code_path(code);
    assert!(result.is_none());
}

#[test]
fn test_delete_code_path() {
    let mut db = DB::open_in_memory();
    let _ = db.insert_code_path("fart", "/path", None);

    let result = db.delete_code_path("fart");
    assert_eq!(result, 1);

    let result2 = db.delete_code_path("fart");
    assert_eq!(result2, 0);
}

#[test]
fn test_increment_hit_count() {
    let mut db = DB::open_in_memory();

    let result = db.insert_code_path("fart", "/path", None);
    println!("{:?}", result);
    assert!(result.is_ok());

    let maybe_new_hit_count = db.increment_hit_count("fart");
    assert!(maybe_new_hit_count.is_some());
    assert_eq!(maybe_new_hit_count.unwrap(), 1);

    let maybe_new_hit_count = db.increment_hit_count("fart");
    assert!(maybe_new_hit_count.is_some());
    assert_eq!(maybe_new_hit_count.unwrap(), 2);
}

#[test]
fn test_get_schema_version() {
    let res = DB::open_in_memory();
    println!("res {:?}", res);
    let db = DB::open_in_memory();
    assert!(db.get_all_code_paths().is_empty());
}

#[test]
fn create_then_get_returns_path() {
    let mut db = DB::open_in_memory();
    assert!(db.insert_code_path("abc123", "/tmp/share", None).is_ok());
    let row = db.get_code_path("abc123").unwrap();
    assert_eq!(row.path, "/tmp/share");
    assert_eq!(row.code, "abc123");
    assert_eq!(row.hits, 0);
    assert_eq!(row.expiration, None);
}

#[test]
fn expired_share_is_hidden_but_listed() {
    let mut db = DB::open_in_memory();
    let now = Utc::now().timestamp();
    assert!(db.insert_code_path("x", "/tmp/p", Some(now - 1)).is_ok());
    assert!(db.get_code_path("x").is_none());
    assert!(db.increment_hit_count("x").is_none());
    let all = db.get_all_code_paths();
    assert_eq!(all.len(), 1);
    assert_eq!(all[0].code, "x");
    assert_eq!(all[0].hits, 0);
}

#[test]
fn expiration_is_exclusive_at_the_given_time() {
    let mut db = DB::open_in_memory();
    assert!(db.insert_code_path("t", "/tmp/t", Some(100)).is_ok());
    assert_eq!(db.get_code_path_at("t", 99).unwrap().path, "/tmp/t");
    assert!(db.get_code_path_at("t", 100).is_none());
    assert!(db.get_code_path_at("t", 101).is_none());
    assert_eq!(db.increment_hit_count_at("t", 99), Some(1));
    assert_eq!(db.increment_hit_count_at("t", 100), None);
    assert_eq!(db.get_all_code_paths()[0].hits, 1);
}

#[test]
fn duplicate_create_keeps_original_row() {
    let mut db = DB::open_in_memory();
    assert!(db.insert_code_path("dup", "/first", None).is_ok());
    let _ = db.increment_hit_count("dup");
    let result = db.insert_code_path("dup", "/second", Some(5));
    assert_eq!(result, Err(HFMError::DuplicateCode));
    let all = db.get_all_code_paths();
    assert_eq!(all.len(), 1);
    assert_eq!(all[0].path, "/first");
    assert_eq!(all[0].expiration, None);
    assert_eq!(all[0].hits, 1);
}

#[test]
fn duplicate_create_on_expired_code_fails() {
    let mut db = DB::open_in_memory();
    assert!(db.insert_code_path("old", "/first", Some(0)).is_ok());
    assert_eq!(db.insert_code_path("old", "/second", None), Err(HFMError::DuplicateCode));
}

#[test]
fn delete_twice_returns_one_then_zero() {
    let mut db = DB::open_in_memory();
    assert!(db.insert_code_path("abc123", "/tmp/share", None).is_ok());
    assert!(db.insert_code_path("other", "/tmp/other", None).is_ok());
    assert_eq!(db.delete_code_path("abc123"), 1);
    assert_eq!(db.delete_code_path("abc123"), 0);
    let all = db.get_all_code_paths();
    assert_eq!(all.len(), 1);
    assert_eq!(all[0].code, "other");
}

#[test]
fn delete_removes_expired_rows_too() {
    let mut db = DB::open_in_memory();
    assert!(db.insert_code_path("gone", "/g", Some(0)).is_ok());
    assert_eq!(db.delete_code_path("gone"), 1);
    assert!(db.get_all_code_paths().is_empty());
}

#[test]
fn increments_count_exactly_n() {
    let mut db = DB::open_in_memory();
    assert!(db.insert_code_path("n", "/n", None).is_ok());
    for i in 1..=25u64 {
        assert_eq!(db.increment_hit_count("n"), Some(i));
    }
    assert_eq!(db.get_code_path("n").unwrap().hits, 25);
}

#[test]
fn increment_unknown_code_is_none() {
    let mut db = DB::open_in_memory();
    assert_eq!(db.increment_hit_count("nope"), None);
    assert!(db.get_code_path("nope").is_none());
}

#[test]
fn from_rows_refuses_duplicate_codes() {
    let row = |code: &str, hits: u64| http_fm::data::CodePath {
        code: code.to_string(),
        path: "/p".to_string(),
        expiration: None,
        hits,
    };
    let db = DB::from_rows(vec![row("a", 3), row("b", 0)]).unwrap();
    assert_eq!(db.get_code_path("a").unwrap().hits, 3);
    assert_eq!(db.get_all_code_paths().len(), 2);
    let refused = DB::from_rows(vec![row("a", 1), row("b", 0), row("a", 2)]);
    assert_eq!(refused.err(), Some(HFMError::DuplicateCode));
}

#[test]
fn migrations_are_keyed_by_stored_version() {
    assert_eq!(DB_VERSION, 1);
    assert_eq!(pending_migrations(None).unwrap(), vec![1]);
    assert_eq!(pending_migrations(Some(0)).unwrap(), vec![1]);
    assert!(pending_migrations(Some(1)).unwrap().is_empty());
    assert!(matches!(pending_migrations(Some(2)), Err(HFMError::StorageError(_))));
    assert!(matches!(pending_migrations(Some(-1)), Err(HFMError::StorageError(_))));
}

#[test]
fn create_with_generated_code_stores_a_fresh_row() {
    let mut db = DB::open_in_memory();
    let code = db.insert_with_generated_code("/tmp/share", None).unwrap();
    assert_eq!(code.len(), 8);
    let row = db.get_code_path(&code).unwrap();
    assert_eq!(row.path, "/tmp/share");
    assert_eq!(row.hits, 0);
    let other = db.insert_with_generated_code("/tmp/other", Some(7)).unwrap();
    assert_ne!(code, other);
    assert_eq!(db.get_all_code_paths().len(), 2);
}

#[test]
fn generated_code_create_succeeds_when_no_code_has_that_length() {
    let mut db = DB::open_in_memory();
    assert!(db.insert_code_path("short", "/a", None).is_ok());
    assert!(db.insert_code_path("muchlongercode", "/b", None).is_ok());
    let code = db.insert_with_generated_code("/c", None).unwrap();
    assert_eq!(code.len(), 8);
    assert_eq!(db.get_code_path(&code).unwrap().path, "/c");
    assert_eq!(db.get_all_code_paths().len(), 3);
}
