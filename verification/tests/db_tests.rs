use pagewatch::db::Db;

#[test]
fn test_simple() {
    let mut db = Db::new_in_memory().unwrap();
    assert_eq!(db.get("a"), None);
    db.put("a", "b").unwrap();
    assert_eq!(db.get("b"), None);
    assert_eq!(db.get("a"), Some("b".to_string()));
}

#[test]
fn test_override() {
    let mut db = Db::new_in_memory().unwrap();
    db.put("a", "b").unwrap();
    assert_eq!(db.get("a"), Some("b".to_string()));
    db.put("a", "q").unwrap();
    assert_eq!(db.get("a"), Some("q".to_string()));
}

#[test]
fn test_round_trip_exact_value() {
    let mut db = Db::new_in_memory().unwrap();
    let value = "meow\ncactus\nwith:colon\n";
    db.put("some:key", value).unwrap();
    assert_eq!(db.get("some:key"), Some(value.to_string()));
}

#[test]
fn test_open_failure_is_an_error() {
    let missing_dir_path = "/path-that-does-not-exist-anywhere/cache.db";
    assert!(Db::new(missing_dir_path).is_err());
}
